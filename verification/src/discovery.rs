//! Locating the `AsciiDoc` file when none is named: the decisions of the
//! search, one probe answer at a time.
//!
//! The search starts in the working directory and walks up toward the file
//! system root. In each directory it asks, in order, whether each candidate
//! basename names a file there; the first that does is the answer. Otherwise
//! the directory is the last one searched if it holds `.git` (the repository
//! root), and the search also ends when there is no parent to move to.

use vstd::prelude::*;

verus! {

/// The number of candidate basenames.
pub const CANDIDATE_COUNT: usize = 6;

/// The basenames searched, in precedence order.
pub open spec fn candidates() -> Seq<Seq<char>> {
    seq![
        "COMMANDS.adoc"@,
        "COMMANDS.asciidoc"@,
        "DEVELOP.adoc"@,
        "DEVELOP.asciidoc"@,
        "README.adoc"@,
        "README.asciidoc"@,
    ]
}

/// The `i`-th candidate basename.
pub fn candidate(i: usize) -> (r: &'static str)
    requires
        i < 6,
    ensures
        r@ == candidates()[i as int],
{
    if i == 0 {
        "COMMANDS.adoc"
    } else if i == 1 {
        "COMMANDS.asciidoc"
    } else if i == 2 {
        "DEVELOP.adoc"
    } else if i == 3 {
        "DEVELOP.asciidoc"
    } else if i == 4 {
        "README.adoc"
    } else {
        "README.asciidoc"
    }
}

/// A question the search asks about the directory it is in.
#[derive(Clone, Copy, Debug, PartialEq, Eq)]
pub enum Probe {
    /// Does the `i`-th candidate basename name a file in this directory?
    Candidate(usize),
    /// Does this directory hold `.git`?
    RepoMarker,
    /// Did moving to the parent directory succeed?
    Parent,
}

/// What the search does next.
#[derive(Clone, Copy, Debug, PartialEq, Eq)]
pub enum Step {
    /// Ask this question next.
    Ask(Probe),
    /// The `i`-th candidate basename, in the current directory, is the file.
    Found(usize),
    /// There is no file to be found.
    NotFound,
}

/// The step that follows the answer `answer` to the probe `p`.
pub open spec fn next_step(p: Probe, answer: bool) -> Step {
    match p {
        Probe::Candidate(i) => if answer {
            Step::Found(i)
        } else if i + 1 < 6 {
            Step::Ask(Probe::Candidate((i + 1) as usize))
        } else {
            Step::Ask(Probe::RepoMarker)
        },
        Probe::RepoMarker => if answer {
            Step::NotFound
        } else {
            Step::Ask(Probe::Parent)
        },
        Probe::Parent => if answer {
            Step::Ask(Probe::Candidate(0))
        } else {
            Step::NotFound
        },
    }
}

/// Decide what the search does after the probe `p` was answered `answer`.
pub fn discover_step(p: Probe, answer: bool) -> (r: Step)
    requires
        p matches Probe::Candidate(i) ==> i < 6,
    ensures
        r == next_step(p, answer),
        p matches Probe::Candidate(i) ==> (answer ==> r == Step::Found(i)),
        p matches Probe::Candidate(i) ==> (!answer ==> r == (if i + 1 < 6 {
            Step::Ask(Probe::Candidate((i + 1) as usize))
        } else {
            Step::Ask(Probe::RepoMarker)
        })),
        p is RepoMarker ==> r == (if answer {
            Step::NotFound
        } else {
            Step::Ask(Probe::Parent)
        }),
        p is Parent ==> r == (if answer {
            Step::Ask(Probe::Candidate(0))
        } else {
            Step::NotFound
        }),
{
    match p {
        Probe::Candidate(i) => if answer {
            Step::Found(i)
        } else if i + 1 < CANDIDATE_COUNT {
            Step::Ask(Probe::Candidate(i + 1))
        } else {
            Step::Ask(Probe::RepoMarker)
        },
        Probe::RepoMarker => if answer {
            Step::NotFound
        } else {
            Step::Ask(Probe::Parent)
        },
        Probe::Parent => if answer {
            Step::Ask(Probe::Candidate(0))
        } else {
            Step::NotFound
        },
    }
}

/// The answer to probe `p` in the directory `d` levels above the start, where
/// `file(d, i)` tells whether candidate `i` names a file there, `git(d)`
/// whether it holds `.git`, and `parent(d)` whether it has a parent.
pub open spec fn answer_in(
    file: spec_fn(nat, nat) -> bool,
    git: spec_fn(nat) -> bool,
    parent: spec_fn(nat) -> bool,
    p: Probe,
    d: nat,
) -> bool {
    match p {
        Probe::Candidate(i) => file(d, i as nat),
        Probe::RepoMarker => git(d),
        Probe::Parent => parent(d),
    }
}

/// Runs the search for at most `fuel` probes from probe `p` in directory `d`:
/// the final step (`Found` or `NotFound`) and the directory it was taken in.
pub open spec fn run_search(
    file: spec_fn(nat, nat) -> bool,
    git: spec_fn(nat) -> bool,
    parent: spec_fn(nat) -> bool,
    p: Probe,
    d: nat,
    fuel: nat,
) -> Option<(Step, nat)>
    decreases fuel,
{
    if fuel == 0 {
        None
    } else {
        match next_step(p, answer_in(file, git, parent, p, d)) {
            Step::Ask(q) => run_search(file, git, parent, q, if p is Parent { d + 1 } else { d }, (fuel - 1) as nat),
            s => Some((s, d)),
        }
    }
}

/// Every directory below `d` has no candidate, no `.git`, and a parent.
pub open spec fn clear_below(
    file: spec_fn(nat, nat) -> bool,
    git: spec_fn(nat) -> bool,
    parent: spec_fn(nat) -> bool,
    d: nat,
) -> bool {
    &&& forall|f: nat, j: nat| f < d && j < 6 ==> !#[trigger] file(f, j)
    &&& forall|f: nat| f < d ==> !#[trigger] git(f)
    &&& forall|f: nat| f < d ==> #[trigger] parent(f)
}

/// No candidate before the `k`-th names a file in directory `d`.
pub open spec fn clear_in(file: spec_fn(nat, nat) -> bool, d: nat, k: nat) -> bool {
    forall|j: nat| j < k ==> !#[trigger] file(d, j)
}

/// What the search knows on reaching probe `p` in directory `d`: every
/// directory below is clear, and in `d` the candidates before the current
/// one name no file (all of them, once past the candidates; and `d` holds no
/// `.git` when the parent is asked for).
pub open spec fn searched_before(
    file: spec_fn(nat, nat) -> bool,
    git: spec_fn(nat) -> bool,
    parent: spec_fn(nat) -> bool,
    p: Probe,
    d: nat,
) -> bool {
    &&& clear_below(file, git, parent, d)
    &&& match p {
        Probe::Candidate(i) => i < 6 && clear_in(file, d, i as nat),
        Probe::RepoMarker => clear_in(file, d, 6),
        Probe::Parent => !git(d) && clear_in(file, d, 6),
    }
}

/// Candidate `i` names a file in directory `e`, no earlier candidate does,
/// and every directory below `e` is clear.
pub open spec fn found_first(
    file: spec_fn(nat, nat) -> bool,
    git: spec_fn(nat) -> bool,
    parent: spec_fn(nat) -> bool,
    i: nat,
    e: nat,
) -> bool {
    &&& i < 6
    &&& file(e, i)
    &&& clear_in(file, e, i)
    &&& clear_below(file, git, parent, e)
}

/// Every directory below `e` is clear, no candidate names a file in `e`, and
/// `e` holds `.git` or has no parent.
pub open spec fn none_up_to(
    file: spec_fn(nat, nat) -> bool,
    git: spec_fn(nat) -> bool,
    parent: spec_fn(nat) -> bool,
    e: nat,
) -> bool {
    &&& clear_below(file, git, parent, e)
    &&& clear_in(file, e, 6)
    &&& (git(e) || !parent(e))
}

/// A finished search result `r` is right: `Found(i)` in directory `e` is the
/// first candidate in the first directory that has one, and `NotFound` in
/// `e` means no directory up to the stopping directory `e` has one.
pub open spec fn search_answer_is_first(
    file: spec_fn(nat, nat) -> bool,
    git: spec_fn(nat) -> bool,
    parent: spec_fn(nat) -> bool,
    r: Option<(Step, nat)>,
) -> bool {
    match r {
        Some((Step::Found(i), e)) => found_first(file, git, parent, i as nat, e),
        Some((Step::NotFound, e)) => none_up_to(file, git, parent, e),
        _ => true,
    }
}

proof fn lemma_run_search(
    file: spec_fn(nat, nat) -> bool,
    git: spec_fn(nat) -> bool,
    parent: spec_fn(nat) -> bool,
    p: Probe,
    d: nat,
    fuel: nat,
)
    requires
        searched_before(file, git, parent, p, d),
    ensures
        search_answer_is_first(file, git, parent, run_search(file, git, parent, p, d, fuel)),
        !(run_search(file, git, parent, p, d, fuel) matches Some((Step::Ask(_), _))),
    decreases fuel,
{
    if fuel > 0 {
        let a = answer_in(file, git, parent, p, d);
        match next_step(p, a) {
            Step::Ask(q) => {
                let d2 = if p is Parent { d + 1 } else { d };
                if p is Parent {
                    assert(parent(d));
                    assert(clear_below(file, git, parent, d2)) by {
                        assert forall|f: nat, j: nat| f < d2 && j < 6 implies !#[trigger] file(f, j) by {
                            if f == d {
                                assert(!file(d, j));
                            }
                        }
                    }
                    assert(clear_in(file, d2, 0));
                } else if let Probe::Candidate(i) = p {
                    assert(!file(d, i as nat));
                    assert(clear_in(file, d, (i + 1) as nat));
                } else {
                    assert(!git(d));
                }
                assert(searched_before(file, git, parent, q, d2));
                lemma_run_search(file, git, parent, q, d2, (fuel - 1) as nat);
            },
            s => {
                assert(run_search(file, git, parent, p, d, fuel) == Some((s, d)));
                if let Probe::Candidate(i) = p {
                    assert(found_first(file, git, parent, i as nat, d));
                } else {
                    if p is RepoMarker {
                        assert(git(d));
                    } else {
                        assert(!parent(d));
                    }
                    assert(none_up_to(file, git, parent, d));
                }
            },
        }
    }
}

/// A finished search from the first candidate in the starting directory
/// answers the first candidate basename, in precedence order, that names a
/// file in the innermost directory that has one, searching no further up than
/// the first directory that holds `.git` (or has no parent). It answers that
/// there is none only when no directory up to that one has a candidate.
pub proof fn law_search_finds_first_candidate(
    file: spec_fn(nat, nat) -> bool,
    git: spec_fn(nat) -> bool,
    parent: spec_fn(nat) -> bool,
    fuel: nat,
)
    ensures
        search_answer_is_first(file, git, parent, run_search(file, git, parent, Probe::Candidate(0), 0, fuel)),
        !(run_search(file, git, parent, Probe::Candidate(0), 0, fuel) matches Some((Step::Ask(_), _))),
{
    lemma_run_search(file, git, parent, Probe::Candidate(0), 0, fuel);
}

} // verus!
