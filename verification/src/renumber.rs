//! The renumbering engine: given the files of one directory, plan the
//! renames that leave at most one file at each leading number. Within a
//! duplicate group the configured keep-file is kept at its number when
//! present, else the first file in directory order; every other member moves
//! to the smallest number at or above the configured floor that no file of
//! the directory holds and no earlier move has taken.
use vstd::prelude::*;

use crate::numbers::digit_run_len;
use crate::numbers::has_number;
use crate::numbers::number_of;
use crate::numbers::remainder_of;
use crate::numbers::spec_padded;
use crate::numbers::width_of;
use crate::numbers::format_number;
use crate::numbers::parse_leading_number;
use crate::numbers::lemma_digit_run_len_props;

verus! {

/// A file name split at its leading digit run.
pub struct NumericFileName {
    /// Value of the leading digit run.
    pub prefix_digits: u32,
    /// What follows the digit run, separator and extension included.
    pub remainder: String,
    /// The name as it stands in the directory.
    pub original_name: String,
}

impl NumericFileName {
    /// The fields agree with the name they were read from.
    pub open spec fn wf(self) -> bool {
        &&& has_number(self.original_name@)
        &&& self.prefix_digits as nat == number_of(self.original_name@)
        &&& self.remainder@ == remainder_of(self.original_name@)
    }
}

/// Split `name` at its leading digit run; `None` for an unnumbered name.
pub fn parse_numeric_file_name(name: &str) -> (r: Option<NumericFileName>)
    ensures
        r is Some <==> has_number(name@),
        r matches Some(f) ==> f.wf() && f.original_name@ == name@,
{
    match parse_leading_number(name) {
        None => None,
        Some((v, k)) => {
            proof {
                lemma_digit_run_len_props(name@);
            }
            let n = name.unicode_len();
            let remainder = String::from_str(name.substring_char(k, n));
            Some(
                NumericFileName {
                    prefix_digits: v,
                    remainder,
                    original_name: String::from_str(name),
                },
            )
        },
    }
}

/// Some file of the directory carries the number `n`.
pub open spec fn num_used(files: Seq<Seq<char>>, n: nat) -> bool {
    exists|i: int|
        0 <= i < files.len() && has_number(files[i]) && number_of(files[i]) == n
}

/// `n` is held neither by a file of the directory nor by an earlier move.
pub open spec fn is_free(files: Seq<Seq<char>>, taken: Seq<nat>, n: nat) -> bool {
    !num_used(files, n) && !taken.contains(n)
}

/// The smallest free number at or above `n`; one above `u32::MAX` when no
/// number in range is free.
pub open spec fn next_free_from(files: Seq<Seq<char>>, taken: Seq<nat>, n: nat) -> nat
    decreases u32::MAX + 1 - n when n <= u32::MAX + 1
{
    if n > u32::MAX {
        n
    } else if is_free(files, taken, n) {
        n
    } else {
        next_free_from(files, taken, n + 1)
    }
}

/// What the free-number search returns: a free number, with nothing free
/// below it at or above the floor.
pub proof fn lemma_next_free_from_props(files: Seq<Seq<char>>, taken: Seq<nat>, n: nat)
    requires
        n <= u32::MAX + 1,
    ensures
        n <= next_free_from(files, taken, n) <= u32::MAX + 1,
        next_free_from(files, taken, n) <= u32::MAX ==> is_free(
            files,
            taken,
            next_free_from(files, taken, n),
        ),
        forall|m: nat|
            n <= m < next_free_from(files, taken, n) ==> !is_free(files, taken, m),
    decreases u32::MAX + 1 - n,
{
    if n > u32::MAX {
    } else if is_free(files, taken, n) {
    } else {
        lemma_next_free_from_props(files, taken, n + 1);
    }
}

/// The name of the keep-file stands in the group of number `v`.
pub open spec fn keep_in_group(files: Seq<Seq<char>>, keep: Option<Seq<char>>, v: nat) -> bool {
    keep is Some && exists|j: int|
        0 <= j < files.len() && has_number(files[j]) && number_of(files[j]) == v && files[j]
            == keep->0
}

/// File `i` stays at its number: it is the first file of its group named as
/// the keep-file when the group holds that name, else the first file of its
/// group in directory order.
pub open spec fn is_kept(files: Seq<Seq<char>>, keep: Option<Seq<char>>, i: int) -> bool {
    &&& 0 <= i < files.len()
    &&& has_number(files[i])
    &&& {
        let v = number_of(files[i]);
        if keep_in_group(files, keep, v) {
            files[i] == keep->0 && forall|j: int|
                0 <= j < i ==> !(has_number(files[j]) && number_of(files[j]) == v && files[j]
                    == keep->0)
        } else {
            forall|j: int| 0 <= j < i ==> !(has_number(files[j]) && number_of(files[j]) == v)
        }
    }
}

/// File `i` must move: it is numbered and loses its number to another member
/// of its group.
pub open spec fn is_displaced(files: Seq<Seq<char>>, keep: Option<Seq<char>>, i: int) -> bool {
    0 <= i < files.len() && has_number(files[i]) && !is_kept(files, keep, i)
}

/// The numbers a list of moves hands out.
pub open spec fn assigned_nums(asg: Seq<(int, nat)>) -> Seq<nat> {
    asg.map_values(|p: (int, nat)| p.1)
}

/// The moves among the first `i` files: file index and assigned number, in
/// directory order. A number one above `u32::MAX` marks a move that found no
/// free number.
pub open spec fn assignments_upto(
    files: Seq<Seq<char>>,
    keep: Option<Seq<char>>,
    start: nat,
    i: int,
) -> Seq<(int, nat)>
    decreases i,
{
    if i <= 0 {
        Seq::empty()
    } else {
        let prev = assignments_upto(files, keep, start, i - 1);
        if is_displaced(files, keep, i - 1) {
            prev.push((i - 1, next_free_from(files, assigned_nums(prev), start)))
        } else {
            prev
        }
    }
}

/// All moves of the directory.
pub open spec fn spec_assignments(
    files: Seq<Seq<char>>,
    keep: Option<Seq<char>>,
    start: nat,
) -> Seq<(int, nat)> {
    assignments_upto(files, keep, start, files.len() as int)
}

/// Every move found a free number in range.
pub open spec fn plan_ok(files: Seq<Seq<char>>, keep: Option<Seq<char>>, start: nat) -> bool {
    let asg = spec_assignments(files, keep, start);
    forall|k: int| 0 <= k < asg.len() ==> (#[trigger] asg[k]).1 <= u32::MAX
}

/// `name` with its leading digit run replaced by `n`, written at least as
/// wide as the run it replaces.
pub open spec fn renamed_name(name: Seq<char>, n: nat) -> Seq<char> {
    spec_padded(n, width_of(name)) + remainder_of(name)
}

/// `plan` lists exactly the moves of `spec_assignments`, as rename steps.
pub open spec fn plan_matches(
    plan: Seq<RenameStep>,
    files: Seq<Seq<char>>,
    keep: Option<Seq<char>>,
    start: nat,
) -> bool {
    let asg = spec_assignments(files, keep, start);
    &&& plan.len() == asg.len()
    &&& forall|k: int|
        0 <= k < asg.len() ==> {
            &&& 0 <= (#[trigger] asg[k]).0 < files.len()
            &&& plan[k].from@ == files[asg[k].0]
            &&& plan[k].to@ == renamed_name(files[asg[k].0], asg[k].1)
        }
}

/// One planned rename: the name a file holds and the name it moves to.
pub struct RenameStep {
    /// The name as it stands in the directory.
    pub from: String,
    /// The name after the move.
    pub to: String,
}

/// Why no plan could be built.
#[derive(Debug, PartialEq, Eq, Structural, Clone, Copy)]
pub enum PlanError {
    /// A move found every number from the floor upward already in use.
    NumbersExhausted,
}

/// A shorter prefix of files moves a prefix of what a longer one moves.
pub proof fn lemma_assignments_prefix(
    files: Seq<Seq<char>>,
    keep: Option<Seq<char>>,
    start: nat,
    i: int,
    j: int,
)
    requires
        0 <= i <= j,
    ensures
        assignments_upto(files, keep, start, i).len() <= assignments_upto(
            files,
            keep,
            start,
            j,
        ).len(),
        assignments_upto(files, keep, start, j).take(
            assignments_upto(files, keep, start, i).len() as int,
        ) =~= assignments_upto(files, keep, start, i),
    decreases j - i,
{
    if i < j {
        lemma_assignments_prefix(files, keep, start, i, j - 1);
    }
}

/// The views of `u32` numbers as mathematical numbers.
pub open spec fn nums_as_nat(s: Seq<u32>) -> Seq<nat> {
    s.map_values(|x: u32| x as nat)
}

/// The parsed names agree with the directory's files, position by position.
pub open spec fn parsed_matches(p: Seq<Option<NumericFileName>>, files: Seq<Seq<char>>) -> bool {
    &&& p.len() == files.len()
    &&& forall|i: int|
        0 <= i < p.len() ==> {
            &&& ((#[trigger] p[i]) is Some <==> has_number(files[i]))
            &&& (p[i] is Some ==> p[i]->0.wf() && p[i]->0.original_name@ == files[i])
        }
}

/// Whether the number list holds `n`.
fn taken_contains(taken: &Vec<u32>, n: u32) -> (r: bool)
    ensures
        r == nums_as_nat(taken@).contains(n as nat),
{
    let mut j: usize = 0;
    while j < taken.len()
        invariant
            0 <= j <= taken@.len(),
            forall|m: int| 0 <= m < j ==> taken@[m] != n,
        decreases taken@.len() - j,
    {
        if taken[j] == n {
            assert(nums_as_nat(taken@)[j as int] == n as nat);
            return true;
        }
        j = j + 1;
    }
    assert forall|m: int| 0 <= m < nums_as_nat(taken@).len() implies nums_as_nat(taken@)[m]
        != n as nat by {
        assert(taken@[m] != n);
    }
    false
}

/// Whether some file of the directory carries the number `n`.
fn any_file_uses(
    parsed: &Vec<Option<NumericFileName>>,
    n: u32,
    Ghost(files): Ghost<Seq<Seq<char>>>,
) -> (r: bool)
    requires
        parsed_matches(parsed@, files),
    ensures
        r == num_used(files, n as nat),
{
    let mut j: usize = 0;
    while j < parsed.len()
        invariant
            parsed_matches(parsed@, files),
            0 <= j <= parsed@.len(),
            forall|m: int|
                0 <= m < j ==> !(has_number(files[m]) && number_of(files[m]) == n as nat),
        decreases parsed@.len() - j,
    {
        match &parsed[j] {
            Some(f) => {
                if f.prefix_digits == n {
                    assert(has_number(files[j as int]) && number_of(files[j as int]) == n as nat);
                    return true;
                }
            },
            None => {},
        }
        j = j + 1;
    }
    false
}

/// The smallest free number at or above `start`; `None` when every number up
/// to `u32::MAX` is in use.
fn next_free(
    parsed: &Vec<Option<NumericFileName>>,
    taken: &Vec<u32>,
    start: u32,
    Ghost(files): Ghost<Seq<Seq<char>>>,
) -> (r: Option<u32>)
    requires
        parsed_matches(parsed@, files),
    ensures
        ({
            let nf = next_free_from(files, nums_as_nat(taken@), start as nat);
            match r {
                Some(m) => m as nat == nf,
                None => nf == u32::MAX + 1,
            }
        }),
{
    let mut n: u32 = start;
    loop
        invariant
            parsed_matches(parsed@, files),
            start <= n,
            next_free_from(files, nums_as_nat(taken@), start as nat) == next_free_from(
                files,
                nums_as_nat(taken@),
                n as nat,
            ),
        decreases u32::MAX - n,
    {
        let used = any_file_uses(parsed, n, Ghost(files));
        let held = taken_contains(taken, n);
        if !used && !held {
            assert(is_free(files, nums_as_nat(taken@), n as nat));
            return Some(n);
        }
        proof {
            assert(!is_free(files, nums_as_nat(taken@), n as nat));
            assert(next_free_from(files, nums_as_nat(taken@), n as nat) == next_free_from(
                files,
                nums_as_nat(taken@),
                n as nat + 1,
            ));
        }
        if n == u32::MAX {
            proof {
                assert(next_free_from(files, nums_as_nat(taken@), n as nat + 1) == u32::MAX
                    + 1);
            }
            return None;
        }
        n = n + 1;
    }
}

/// First file of the group of `v` in directory order.
fn find_first_of_group(
    parsed: &Vec<Option<NumericFileName>>,
    v: u32,
    Ghost(fs): Ghost<Seq<Seq<char>>>,
) -> (k: usize)
    requires
        parsed_matches(parsed@, fs),
        num_used(fs, v as nat),
    ensures
        k < fs.len(),
        has_number(fs[k as int]) && number_of(fs[k as int]) == v as nat,
        forall|m: int| 0 <= m < k ==> !(has_number(fs[m]) && number_of(fs[m]) == v as nat),
{
    let mut j: usize = 0;
    while j < parsed.len()
        invariant
            parsed_matches(parsed@, fs),
            0 <= j <= fs.len(),
            forall|m: int| 0 <= m < j ==> !(has_number(fs[m]) && number_of(fs[m]) == v as nat),
        decreases parsed@.len() - j,
    {
        match &parsed[j] {
            Some(f) => {
                if f.prefix_digits == v {
                    return j;
                }
            },
            None => {},
        }
        j = j + 1;
    }
    proof {
        assert(false);
    }
    0
}

/// The index of the one file of the group of `v` that keeps its number.
fn find_keeper(
    files: &Vec<String>,
    parsed: &Vec<Option<NumericFileName>>,
    v: u32,
    keep_file: &Option<String>,
) -> (k: usize)
    requires
        parsed_matches(parsed@, files.deep_view()),
        num_used(files.deep_view(), v as nat),
    ensures
        ({
            let fs = files.deep_view();
            let kv = keep_file.deep_view();
            &&& k < fs.len()
            &&& has_number(fs[k as int]) && number_of(fs[k as int]) == v as nat
            &&& forall|i: int|
                0 <= i < fs.len() && has_number(fs[i]) && number_of(fs[i]) == v as nat ==> (
                is_kept(fs, kv, i) <==> i == k)
        }),
{
    let ghost fs = files.deep_view();
    let ghost kv = keep_file.deep_view();
    match keep_file {
        Some(kname) => {
            proof {
                assert(kv == Some(kname@));
            }
            let mut j: usize = 0;
            while j < files.len()
                invariant
                    parsed_matches(parsed@, fs),
                    fs == files.deep_view(),
                    kv == keep_file.deep_view(),
                    fs.len() == files@.len(),
                    kv == Some(kname@),
                    0 <= j <= fs.len(),
                    forall|m: int|
                        0 <= m < j ==> !(has_number(fs[m]) && number_of(fs[m]) == v as nat
                            && fs[m] == kname@),
                decreases fs.len() - j,
            {
                proof {
                    assert(fs[j as int] == files@[j as int]@);
                }
                let mut hit = false;
                match &parsed[j] {
                    Some(f) => {
                        if f.prefix_digits == v && files[j].eq(kname) {
                            hit = true;
                        }
                    },
                    None => {},
                }
                if hit {
                    proof {
                        assert(has_number(fs[j as int]) && number_of(fs[j as int]) == v as nat
                            && fs[j as int] == kname@);
                        assert(keep_in_group(fs, kv, v as nat));
                        assert(is_kept(fs, kv, j as int));
                        assert forall|i: int|
                            0 <= i < fs.len() && has_number(fs[i]) && number_of(fs[i])
                                == v as nat && i != j implies !is_kept(fs, kv, i) by {
                            if is_kept(fs, kv, i) {
                                // a kept file of this group is named as the
                                // keep-file with no earlier such member; both
                                // orderings of i and j contradict that
                                assert(fs[i] == kname@);
                            }
                        }
                    }
                    return j;
                }
                j = j + 1;
            }
            proof {
                assert(!keep_in_group(fs, kv, v as nat));
            }
            let k = find_first_of_group(parsed, v, Ghost(fs));
            proof {
                assert forall|i: int|
                    0 <= i < fs.len() && has_number(fs[i]) && number_of(fs[i]) == v as nat implies (
                is_kept(fs, kv, i) <==> i == k as int) by {
                    if i == k as int {
                        assert(is_kept(fs, kv, i));
                    } else if is_kept(fs, kv, i) {
                        assert(!(has_number(fs[k as int]) && number_of(fs[k as int])
                            == v as nat) || k as int >= i);
                    }
                }
            }
            k
        },
        None => {
            proof {
                assert(!keep_in_group(fs, kv, v as nat));
            }
            let k = find_first_of_group(parsed, v, Ghost(fs));
            proof {
                assert forall|i: int|
                    0 <= i < fs.len() && has_number(fs[i]) && number_of(fs[i]) == v as nat implies (
                is_kept(fs, kv, i) <==> i == k as int) by {
                    if i == k as int {
                        assert(is_kept(fs, kv, i));
                    } else if is_kept(fs, kv, i) {
                        assert(!(has_number(fs[k as int]) && number_of(fs[k as int])
                            == v as nat) || k as int >= i);
                    }
                }
            }
            k
        },
    }
}

/// Plan the renames for the files of one directory. At most one file of each
/// numeric group keeps its number; every other member is sent to the
/// smallest number at or above `start` that no file holds and no earlier
/// move has taken. `Err` when some move finds every number up to `u32::MAX`
/// in use; no plan is returned then.
pub fn compute_plan(files: &Vec<String>, start: u32, keep_file: &Option<String>) -> (r: Result<
    Vec<RenameStep>,
    PlanError,
>)
    ensures
        r is Ok <==> plan_ok(files.deep_view(), keep_file.deep_view(), start as nat),
        r matches Ok(plan) ==> plan_matches(
            plan@,
            files.deep_view(),
            keep_file.deep_view(),
            start as nat,
        ),
{
    let ghost fs = files.deep_view();
    let ghost kv = keep_file.deep_view();
    let mut parsed: Vec<Option<NumericFileName>> = Vec::new();
    let mut i: usize = 0;
    while i < files.len()
        invariant
            fs == files.deep_view(),
            fs.len() == files@.len(),
            0 <= i <= files@.len(),
            parsed@.len() == i,
            forall|j: int|
                0 <= j < i ==> {
                    &&& ((#[trigger] parsed@[j]) is Some <==> has_number(fs[j]))
                    &&& (parsed@[j] is Some ==> parsed@[j]->0.wf() && parsed@[j]->0.original_name@
                        == fs[j])
                },
        decreases files@.len() - i,
    {
        proof {
            assert(fs[i as int] == files@[i as int]@);
        }
        let p = parse_numeric_file_name(files[i].as_str());
        parsed.push(p);
        i = i + 1;
    }
    assert(parsed_matches(parsed@, fs));

    let mut plan: Vec<RenameStep> = Vec::new();
    let mut taken: Vec<u32> = Vec::new();
    let mut i: usize = 0;
    while i < files.len()
        invariant
            fs == files.deep_view(),
            kv == keep_file.deep_view(),
            fs.len() == files@.len(),
            parsed_matches(parsed@, fs),
            0 <= i <= files@.len(),
            ({
                let asg = assignments_upto(fs, kv, start as nat, i as int);
                &&& nums_as_nat(taken@) =~= assigned_nums(asg)
                &&& plan@.len() == asg.len()
                &&& forall|k: int|
                    0 <= k < asg.len() ==> {
                        &&& 0 <= (#[trigger] asg[k]).0 < fs.len()
                        &&& plan@[k].from@ == fs[asg[k].0]
                        &&& plan@[k].to@ == renamed_name(fs[asg[k].0], asg[k].1)
                        &&& asg[k].1 <= u32::MAX
                    }
            }),
        decreases files@.len() - i,
    {
        let ghost prev = assignments_upto(fs, kv, start as nat, i as int);
        match &parsed[i] {
            Some(f) => {
                proof {
                    assert(has_number(fs[i as int]) && number_of(fs[i as int])
                        == f.prefix_digits as nat);
                }
                let k = find_keeper(files, &parsed, f.prefix_digits, keep_file);
                if k != i {
                    proof {
                        assert(!is_kept(fs, kv, i as int));
                        assert(is_displaced(fs, kv, i as int));
                    }
                    match next_free(&parsed, &taken, start, Ghost(fs)) {
                        Some(n) => {
                            let ol = f.original_name.as_str().unicode_len();
                            let rl = f.remainder.as_str().unicode_len();
                            proof {
                                lemma_digit_run_len_props(fs[i as int]);
                            }
                            let width = ol - rl;
                            proof {
                                assert(width as nat == width_of(fs[i as int]));
                            }
                            let to = format_number(n, width).concat(f.remainder.as_str());
                            let from = f.original_name.clone();
                            let step = RenameStep { from, to };
                            plan.push(step);
                            taken.push(n);
                            proof {
                                let cur = assignments_upto(fs, kv, start as nat, i as int + 1);
                                assert(cur == prev.push(
                                    (
                                        i as int,
                                        next_free_from(fs, assigned_nums(prev), start as nat),
                                    ),
                                ));
                                assert(next_free_from(fs, assigned_nums(prev), start as nat)
                                    == n as nat);
                                assert(assigned_nums(cur) =~= assigned_nums(prev).push(
                                    n as nat,
                                ));
                                assert(nums_as_nat(taken@) =~= assigned_nums(cur));
                                assert(plan@[cur.len() - 1].to@ == renamed_name(
                                    fs[i as int],
                                    n as nat,
                                ));
                            }
                        },
                        None => {
                            proof {
                                let cur = assignments_upto(fs, kv, start as nat, i as int + 1);
                                assert(cur == prev.push((i as int, (u32::MAX + 1) as nat)));
                                lemma_assignments_prefix(
                                    fs,
                                    kv,
                                    start as nat,
                                    i as int + 1,
                                    fs.len() as int,
                                );
                                let full = spec_assignments(fs, kv, start as nat);
                                assert(full.take(cur.len() as int) =~= cur);
                                assert(full[cur.len() - 1] == cur[cur.len() - 1]);
                                assert(full[cur.len() - 1].1 > u32::MAX);
                                assert(!plan_ok(fs, kv, start as nat));
                            }
                            return Err(PlanError::NumbersExhausted);
                        },
                    }
                } else {
                    proof {
                        assert(is_kept(fs, kv, i as int));
                        assert(!is_displaced(fs, kv, i as int));
                        assert(assignments_upto(fs, kv, start as nat, i as int + 1) == prev);
                    }
                }
            },
            None => {
                proof {
                    assert(!has_number(fs[i as int]));
                    assert(!is_displaced(fs, kv, i as int));
                    assert(assignments_upto(fs, kv, start as nat, i as int + 1) == prev);
                }
            },
        }
        i = i + 1;
    }
    proof {
        assert(plan_ok(fs, kv, start as nat));
        assert(plan_matches(plan@, fs, kv, start as nat));
    }
    Ok(plan)
}

/// What the list of moves holds: each move is of a displaced file, moves
/// come in directory order, every displaced file moves exactly once, and
/// each assigned number is the smallest free one at the time of its move.
pub proof fn lemma_assignments_props(
    files: Seq<Seq<char>>,
    keep: Option<Seq<char>>,
    start: nat,
    i: int,
)
    requires
        0 <= i <= files.len(),
    ensures
        ({
            let asg = assignments_upto(files, keep, start, i);
            &&& forall|k: int|
                0 <= k < asg.len() ==> 0 <= (#[trigger] asg[k]).0 < i && is_displaced(
                    files,
                    keep,
                    asg[k].0,
                )
            &&& forall|k1: int, k2: int|
                0 <= k1 < k2 < asg.len() ==> (#[trigger] asg[k1]).0 < (#[trigger] asg[k2]).0
            &&& forall|j: int|
                0 <= j < i && is_displaced(files, keep, j) ==> exists|k: int|
                    0 <= k < asg.len() && (#[trigger] asg[k]).0 == j
            &&& forall|k: int|
                0 <= k < asg.len() ==> (#[trigger] asg[k]).1 == next_free_from(
                    files,
                    assigned_nums(asg.take(k)),
                    start,
                )
        }),
    decreases i,
{
    if i > 0 {
        lemma_assignments_props(files, keep, start, i - 1);
        let prev = assignments_upto(files, keep, start, i - 1);
        let asg = assignments_upto(files, keep, start, i);
        if is_displaced(files, keep, i - 1) {
            assert(asg == prev.push(
                (i - 1, next_free_from(files, assigned_nums(prev), start)),
            ));
            assert forall|k: int|
                0 <= k < asg.len() implies (#[trigger] asg[k]).1 == next_free_from(
                files,
                assigned_nums(asg.take(k)),
                start,
            ) by {
                if k < prev.len() {
                    assert(asg.take(k) =~= prev.take(k));
                    assert(asg[k] == prev[k]);
                } else {
                    assert(asg.take(k) =~= prev);
                }
            }
            assert forall|j: int|
                0 <= j < i && is_displaced(files, keep, j) implies exists|k: int|
                0 <= k < asg.len() && (#[trigger] asg[k]).0 == j by {
                if j < i - 1 {
                    let k0 = choose|k0: int|
                        0 <= k0 < prev.len() && (#[trigger] prev[k0]).0 == j;
                    assert(asg[k0].0 == j);
                } else {
                    assert(asg[asg.len() - 1].0 == j);
                }
            }
        } else {
            assert(asg == prev);
        }
    }
}

/// Every move takes the smallest number at or above `start` that no file of
/// the directory holds and no earlier move has taken, and no two moves take
/// the same number.
pub proof fn lemma_assigned_numbers_smallest_free(
    files: Seq<Seq<char>>,
    keep: Option<Seq<char>>,
    start: nat,
)
    requires
        plan_ok(files, keep, start),
        start <= u32::MAX,
    ensures
        ({
            let asg = spec_assignments(files, keep, start);
            &&& forall|k: int|
                0 <= k < asg.len() ==> {
                    let taken = assigned_nums(asg.take(k));
                    &&& start <= (#[trigger] asg[k]).1 <= u32::MAX
                    &&& is_free(files, taken, asg[k].1)
                    &&& forall|m: nat| start <= m < asg[k].1 ==> !is_free(files, taken, m)
                }
            &&& forall|k1: int, k2: int|
                0 <= k1 < k2 < asg.len() ==> (#[trigger] asg[k1]).1 != (#[trigger] asg[k2]).1
        }),
{
    lemma_assignments_props(files, keep, start, files.len() as int);
    let asg = spec_assignments(files, keep, start);
    assert forall|k: int| 0 <= k < asg.len() implies {
        let taken = assigned_nums(asg.take(k));
        &&& start <= (#[trigger] asg[k]).1 <= u32::MAX
        &&& is_free(files, taken, asg[k].1)
        &&& forall|m: nat| start <= m < asg[k].1 ==> !is_free(files, taken, m)
    } by {
        let taken = assigned_nums(asg.take(k));
        lemma_next_free_from_props(files, taken, start);
        assert(asg[k].1 == next_free_from(files, taken, start));
    }
    assert forall|k1: int, k2: int| 0 <= k1 < k2 < asg.len() implies (#[trigger] asg[k1]).1 != (
    #[trigger] asg[k2]).1 by {
        let taken2 = assigned_nums(asg.take(k2));
        assert(asg.take(k2)[k1] == asg[k1]);
        assert(taken2[k1] == asg[k1].1);
        assert(taken2.contains(asg[k1].1));
        assert(is_free(files, taken2, asg[k2].1));
    }
}

/// Two files of one group cannot both keep their number.
pub proof fn lemma_kept_unique(
    files: Seq<Seq<char>>,
    keep: Option<Seq<char>>,
    i: int,
    j: int,
)
    requires
        is_kept(files, keep, i),
        is_kept(files, keep, j),
        number_of(files[i]) == number_of(files[j]),
    ensures
        i == j,
{
    if i < j {
        assert(has_number(files[i]) && number_of(files[i]) == number_of(files[j]));
    } else if j < i {
        assert(has_number(files[j]) && number_of(files[j]) == number_of(files[i]));
    }
}

/// The first member of the group of `v` below `bound`, when the group is
/// inhabited there.
proof fn lemma_first_in_group(files: Seq<Seq<char>>, v: nat, bound: int)
    requires
        bound <= files.len(),
        exists|i: int|
            0 <= i < bound && has_number(#[trigger] files[i]) && number_of(files[i]) == v,
    ensures
        exists|i: int|
            0 <= i < bound && has_number(#[trigger] files[i]) && number_of(files[i]) == v
                && forall|j: int|
                0 <= j < i ==> !(has_number(#[trigger] files[j]) && number_of(files[j]) == v),
    decreases bound,
{
    let i0 = choose|i0: int|
        0 <= i0 < bound && has_number(#[trigger] files[i0]) && number_of(files[i0]) == v;
    if exists|j: int|
        0 <= j < i0 && has_number(#[trigger] files[j]) && number_of(files[j]) == v {
        lemma_first_in_group(files, v, i0);
    }
}

/// The first member of the group of `v` named as the keep-file, when one
/// stands below `bound`.
proof fn lemma_first_keep_named(files: Seq<Seq<char>>, name: Seq<char>, v: nat, bound: int)
    requires
        bound <= files.len(),
        exists|i: int|
            0 <= i < bound && has_number(#[trigger] files[i]) && number_of(files[i]) == v
                && files[i] == name,
    ensures
        exists|i: int|
            0 <= i < bound && has_number(#[trigger] files[i]) && number_of(files[i]) == v
                && files[i] == name && forall|j: int|
                0 <= j < i ==> !(has_number(#[trigger] files[j]) && number_of(files[j]) == v
                    && files[j] == name),
    decreases bound,
{
    let i0 = choose|i0: int|
        0 <= i0 < bound && has_number(#[trigger] files[i0]) && number_of(files[i0]) == v
            && files[i0] == name;
    if exists|j: int|
        0 <= j < i0 && has_number(#[trigger] files[j]) && number_of(files[j]) == v && files[j]
            == name {
        lemma_first_keep_named(files, name, v, i0);
    }
}

/// In every group of files sharing a number, exactly one member keeps it:
/// the first member named as the keep-file when the group holds that name,
/// else the first member in directory order.
pub proof fn lemma_exactly_one_kept(files: Seq<Seq<char>>, keep: Option<Seq<char>>, v: nat)
    requires
        num_used(files, v),
    ensures
        exists|i: int|
            0 <= i < files.len() && has_number(#[trigger] files[i]) && number_of(files[i]) == v
                && is_kept(files, keep, i),
        forall|i: int, j: int|
            0 <= i < files.len() && 0 <= j < files.len() && number_of(files[i]) == v
                && number_of(files[j]) == v && is_kept(files, keep, i) && is_kept(
                files,
                keep,
                j,
            ) ==> i == j,
        keep_in_group(files, keep, v) ==> forall|i: int|
            0 <= i < files.len() && number_of(files[i]) == v && is_kept(files, keep, i)
                ==> files[i] == keep->0,
{
    if keep_in_group(files, keep, v) {
        lemma_first_keep_named(files, keep->0, v, files.len() as int);
        let i = choose|i: int|
            0 <= i < files.len() && has_number(#[trigger] files[i]) && number_of(files[i]) == v
                && files[i] == keep->0 && forall|j: int|
                0 <= j < i ==> !(has_number(#[trigger] files[j]) && number_of(files[j]) == v
                    && files[j] == keep->0);
        assert(is_kept(files, keep, i));
    } else {
        lemma_first_in_group(files, v, files.len() as int);
        let i = choose|i: int|
            0 <= i < files.len() && has_number(#[trigger] files[i]) && number_of(files[i]) == v
                && forall|j: int|
                0 <= j < i ==> !(has_number(#[trigger] files[j]) && number_of(files[j]) == v);
        assert(is_kept(files, keep, i));
    }
    assert forall|i: int, j: int|
        0 <= i < files.len() && 0 <= j < files.len() && number_of(files[i]) == v && number_of(
            files[j],
        ) == v && is_kept(files, keep, i) && is_kept(files, keep, j) implies i == j by {
        lemma_kept_unique(files, keep, i, j);
    }
}

/// No two files of the directory share a leading number.
pub open spec fn no_duplicate_numbers(files: Seq<Seq<char>>) -> bool {
    forall|i: int, j: int|
        0 <= i < j < files.len() && has_number(#[trigger] files[i]) && has_number(
            #[trigger] files[j],
        ) ==> number_of(files[i]) != number_of(files[j])
}

proof fn lemma_assignments_empty(
    files: Seq<Seq<char>>,
    keep: Option<Seq<char>>,
    start: nat,
    i: int,
)
    requires
        0 <= i <= files.len(),
        forall|j: int|
            0 <= j < files.len() && has_number(#[trigger] files[j]) ==> is_kept(files, keep, j),
    ensures
        assignments_upto(files, keep, start, i).len() == 0,
    decreases i,
{
    if i > 0 {
        lemma_assignments_empty(files, keep, start, i - 1);
    }
}

/// A directory whose numbers are already unique needs no renames: the plan
/// is empty.
pub proof fn lemma_no_duplicates_empty_plan(
    files: Seq<Seq<char>>,
    keep: Option<Seq<char>>,
    start: nat,
)
    requires
        no_duplicate_numbers(files),
    ensures
        spec_assignments(files, keep, start).len() == 0,
{
    assert forall|i: int|
        0 <= i < files.len() && has_number(#[trigger] files[i]) implies is_kept(
        files,
        keep,
        i,
    ) by {
        let v = number_of(files[i]);
        if keep_in_group(files, keep, v) {
            let j = choose|j: int|
                0 <= j < files.len() && has_number(#[trigger] files[j]) && number_of(files[j])
                    == v && files[j] == keep->0;
            assert(j == i);
        }
    }
    lemma_assignments_empty(files, keep, start, files.len() as int);
}

/// The number, if any, that the moves assign to file `i`.
pub open spec fn assignment_for(asg: Seq<(int, nat)>, i: int) -> Option<nat>
    decreases asg.len(),
{
    if asg.len() == 0 {
        None
    } else if asg.last().0 == i {
        Some(asg.last().1)
    } else {
        assignment_for(asg.drop_last(), i)
    }
}

/// The directory's names once the moves are applied.
pub open spec fn apply_assignments(files: Seq<Seq<char>>, asg: Seq<(int, nat)>) -> Seq<
    Seq<char>,
> {
    Seq::new(
        files.len(),
        |i: int|
            match assignment_for(asg, i) {
                Some(n) => renamed_name(files[i], n),
                None => files[i],
            },
    )
}

/// With distinct move indices, `assignment_for` finds a move of file `i`
/// exactly when the list holds one.
proof fn lemma_assignment_for_finds(asg: Seq<(int, nat)>, i: int)
    requires
        forall|k1: int, k2: int|
            0 <= k1 < k2 < asg.len() ==> (#[trigger] asg[k1]).0 != (#[trigger] asg[k2]).0,
    ensures
        match assignment_for(asg, i) {
            Some(n) => exists|k: int| 0 <= k < asg.len() && (#[trigger] asg[k]) == (i, n),
            None => forall|k: int| 0 <= k < asg.len() ==> (#[trigger] asg[k]).0 != i,
        },
        forall|k: int|
            0 <= k < asg.len() && (#[trigger] asg[k]).0 == i ==> assignment_for(asg, i)
                == Some(asg[k].1),
    decreases asg.len(),
{
    if asg.len() > 0 {
        let prev = asg.drop_last();
        lemma_assignment_for_finds(prev, i);
        if asg.last().0 == i {
            assert(asg[asg.len() - 1] == (i, asg.last().1));
        } else {
            match assignment_for(prev, i) {
                Some(n) => {
                    let k = choose|k: int|
                        0 <= k < prev.len() && (#[trigger] prev[k]) == (i, n);
                    assert(asg[k] == (i, n));
                },
                None => {},
            }
            assert forall|k: int|
                0 <= k < asg.len() && (#[trigger] asg[k]).0 == i implies assignment_for(asg, i)
                == Some(asg[k].1) by {
                assert(k < asg.len() - 1);
                assert(prev[k] == asg[k]);
            }
        }
    }
}

/// A renamed name reads back as the number the move gave it, with its
/// remainder unchanged.
pub proof fn lemma_renamed_name_number(name: Seq<char>, n: nat)
    requires
        has_number(name),
        n <= u32::MAX,
    ensures
        has_number(renamed_name(name, n)),
        number_of(renamed_name(name, n)) == n,
        remainder_of(renamed_name(name, n)) == remainder_of(name),
{
    crate::numbers::lemma_digit_run_len_props(name);
    crate::numbers::lemma_padded_props(n, width_of(name));
    let a = spec_padded(n, width_of(name));
    let b = remainder_of(name);
    if b.len() > 0 {
        assert(b[0] == name[digit_run_len(name) as int]);
    }
    crate::numbers::lemma_run_of_digits_concat(a, b);
}

/// Applying the plan leaves every number unique, so planning again finds
/// nothing to move.
pub proof fn lemma_plan_idempotent(files: Seq<Seq<char>>, keep: Option<Seq<char>>, start: nat)
    requires
        plan_ok(files, keep, start),
        start <= u32::MAX,
    ensures
        no_duplicate_numbers(apply_assignments(files, spec_assignments(files, keep, start))),
        spec_assignments(
            apply_assignments(files, spec_assignments(files, keep, start)),
            keep,
            start,
        ).len() == 0,
{
    let asg = spec_assignments(files, keep, start);
    let applied = apply_assignments(files, asg);
    lemma_assignments_props(files, keep, start, files.len() as int);
    lemma_assigned_numbers_smallest_free(files, keep, start);
    lemma_assignment_props_for_all(files, keep, start);
    assert forall|i: int, j: int|
        0 <= i < j < applied.len() && has_number(#[trigger] applied[i]) && has_number(
            #[trigger] applied[j],
        ) implies number_of(applied[i]) != number_of(applied[j]) by {
        lemma_applied_distinct(files, keep, start, i, j);
    }
    lemma_no_duplicates_empty_plan(applied, keep, start);
}

/// What holds of one file after the moves: a moved file reads as its new
/// number, an unmoved one keeps its name.
pub open spec fn applied_prop(
    files: Seq<Seq<char>>,
    keep: Option<Seq<char>>,
    start: nat,
    i: int,
) -> bool {
    let asg = spec_assignments(files, keep, start);
    let applied = apply_assignments(files, asg);
    match assignment_for(asg, i) {
        Some(n) => is_displaced(files, keep, i) && has_number(applied[i]) && number_of(
            applied[i],
        ) == n && n <= u32::MAX && !num_used(files, n),
        None => applied[i] == files[i] && !is_displaced(files, keep, i),
    }
}

/// For every file of the directory: a moved file was displaced and its new
/// name reads as a number no original file held; an unmoved file keeps its
/// name and was not displaced.
pub proof fn lemma_assignment_props_for_all(
    files: Seq<Seq<char>>,
    keep: Option<Seq<char>>,
    start: nat,
)
    requires
        plan_ok(files, keep, start),
        start <= u32::MAX,
    ensures
        apply_assignments(files, spec_assignments(files, keep, start)).len() == files.len(),
        forall|i: int| 0 <= i < files.len() ==> #[trigger] applied_prop(files, keep, start, i),
{
    let asg = spec_assignments(files, keep, start);
    let applied = apply_assignments(files, asg);
    lemma_assignments_props(files, keep, start, files.len() as int);
    lemma_assigned_numbers_smallest_free(files, keep, start);
    assert forall|k1: int, k2: int|
        0 <= k1 < k2 < asg.len() implies (#[trigger] asg[k1]).0 != (#[trigger] asg[k2]).0 by {}
    assert forall|i: int| 0 <= i < files.len() implies #[trigger] applied_prop(
        files,
        keep,
        start,
        i,
    ) by {
        lemma_assignment_for_finds(asg, i);
        match assignment_for(asg, i) {
            Some(n) => {
                let k = choose|k: int| 0 <= k < asg.len() && (#[trigger] asg[k]) == (i, n);
                assert(is_displaced(files, keep, i));
                assert(n <= u32::MAX);
                assert(is_free(files, assigned_nums(asg.take(k)), n));
                lemma_renamed_name_number(files[i], n);
                assert(applied[i] == renamed_name(files[i], n));
            },
            None => {
                if is_displaced(files, keep, i) {
                    assert(exists|k: int|
                        0 <= k < asg.len() && (#[trigger] asg[k]).0 == i);
                }
            },
        }
    }
}

/// Two distinct files read as distinct numbers once the moves are applied.
proof fn lemma_applied_distinct(
    files: Seq<Seq<char>>,
    keep: Option<Seq<char>>,
    start: nat,
    i: int,
    j: int,
)
    requires
        plan_ok(files, keep, start),
        start <= u32::MAX,
        0 <= i < j < files.len(),
        has_number(apply_assignments(files, spec_assignments(files, keep, start))[i]),
        has_number(apply_assignments(files, spec_assignments(files, keep, start))[j]),
    ensures
        number_of(apply_assignments(files, spec_assignments(files, keep, start))[i])
            != number_of(apply_assignments(files, spec_assignments(files, keep, start))[j]),
{
    let asg = spec_assignments(files, keep, start);
    let applied = apply_assignments(files, asg);
    lemma_assignments_props(files, keep, start, files.len() as int);
    lemma_assigned_numbers_smallest_free(files, keep, start);
    lemma_assignment_props_for_all(files, keep, start);
    assert(applied_prop(files, keep, start, i));
    assert(applied_prop(files, keep, start, j));
    assert forall|k1: int, k2: int|
        0 <= k1 < k2 < asg.len() implies (#[trigger] asg[k1]).0 != (#[trigger] asg[k2]).0 by {}
    lemma_assignment_for_finds(asg, i);
    lemma_assignment_for_finds(asg, j);
    match (assignment_for(asg, i), assignment_for(asg, j)) {
        (None, None) => {
            // both keep their names; a kept file of each group is unique
            assert(has_number(files[i]) && has_number(files[j]));
            assert(is_kept(files, keep, i) && is_kept(files, keep, j));
            if number_of(files[i]) == number_of(files[j]) {
                lemma_kept_unique(files, keep, i, j);
            }
        },
        (None, Some(n)) => {
            // the moved file took a number no original file holds
            assert(!num_used(files, n));
            if number_of(applied[i]) == n {
                assert(has_number(files[i]) && number_of(files[i]) == n);
                assert(num_used(files, n));
            }
        },
        (Some(n), None) => {
            assert(!num_used(files, n));
            if number_of(applied[j]) == n {
                assert(has_number(files[j]) && number_of(files[j]) == n);
                assert(num_used(files, n));
            }
        },
        (Some(n1), Some(n2)) => {
            let k1 = choose|k: int| 0 <= k < asg.len() && (#[trigger] asg[k]) == (i, n1);
            let k2 = choose|k: int| 0 <= k < asg.len() && (#[trigger] asg[k]) == (j, n2);
            assert(k1 != k2);
            if k1 < k2 {
                assert(asg[k1].1 != asg[k2].1);
            } else {
                assert(asg[k2].1 != asg[k1].1);
            }
        },
    }
}

} // verus!
