//! What the arguments of a call say.

use vstd::prelude::*;

use crate::schema::json::{member, JsonView, NumberKind};
use crate::text::grep::CaseMode;
use crate::tools::glob::limit_arg;
use crate::tools::grep::{case_arg, path_arg, skip_arg};

verus! {

broadcast use vstd::seq::group_seq_axioms;

/// Whether a value is this whole number.
pub open spec fn is_count(v: JsonView, n: u64) -> bool {
    v matches JsonView::Number(x) && x.kind == NumberKind::Unsigned(n)
}

/// The path is taken as it is given; where there is none it is the place itself.
pub proof fn lemma_path_is_taken_as_given(v: JsonView, path: Seq<char>)
    ensures
        member(v, "path"@) == Some(JsonView::Text(path)) ==> path_arg(v) == path,
        member(v, "path"@) is None ==> path_arg(v) == "."@,
{
}

/// As many files are skipped as is asked for, and none where nothing is asked for; what is no count is
/// refused.
pub proof fn lemma_skip_is_taken_as_given(v: JsonView, x: JsonView, n: u64)
    ensures
        member(v, "skip"@) is None ==> skip_arg(v) == Ok::<nat, Seq<char>>(0),
        member(v, "skip"@) == Some(x) && is_count(x, n) && n <= usize::MAX ==> skip_arg(v) == Ok::<
            nat,
            Seq<char>,
        >(n as nat),
        member(v, "skip"@) == Some(x) && x !is Null && (forall|k: u64| !#[trigger] is_count(x, k))
            ==> skip_arg(v) is Err,
{
    if member(v, "skip"@) == Some(x) && x !is Null && (forall|k: u64| !#[trigger] is_count(x, k)) {
        if let JsonView::Number(y) = x {
            if let NumberKind::Unsigned(u) = y.kind {
                assert(is_count(x, u));
            }
        }
    }
}

/// As many results are asked for as is said, and none in particular where nothing is said; what is no
/// count, or none at all, is refused.
pub proof fn lemma_limit_is_taken_as_given(v: JsonView, x: JsonView, n: u64)
    ensures
        member(v, "limit"@) is None ==> limit_arg(v) == Ok::<Option<nat>, Seq<char>>(None),
        member(v, "limit"@) == Some(x) && is_count(x, n) && 0 < n <= usize::MAX ==> limit_arg(v) == Ok::<
            Option<nat>,
            Seq<char>,
        >(Some(n as nat)),
        member(v, "limit"@) == Some(x) && is_count(x, 0) ==> limit_arg(v) is Err,
        member(v, "limit"@) == Some(x) && x !is Null && (forall|k: u64| !#[trigger] is_count(x, k))
            ==> limit_arg(v) is Err,
{
    if member(v, "limit"@) == Some(x) && x !is Null && (forall|k: u64| !#[trigger] is_count(x, k)) {
        if let JsonView::Number(y) = x {
            if let NumberKind::Unsigned(u) = y.kind {
                assert(is_count(x, u));
            }
        }
    }
}

/// The case of letters counts where that is said, does not where the contrary is said, and is left to
/// the pattern where nothing is said.
pub proof fn lemma_case_is_taken_as_given(v: JsonView)
    ensures
        member(v, "case"@) == Some(JsonView::Flag(true)) ==> case_arg(v) == CaseMode::Sensitive,
        member(v, "case"@) == Some(JsonView::Flag(false)) ==> case_arg(v) == CaseMode::Insensitive,
        member(v, "case"@) is None ==> case_arg(v) == CaseMode::Smart,
{
}

} // verus!
