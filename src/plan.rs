//! The builder's first half: which results of a walk become table entries,
//! and under which keys.
use vstd::prelude::*;
use crate::keys::{is_under, key_below, relative_key};
use crate::walker::EntryKind;

verus! {

/// A successful result of the walk, as the builder reads it: the entry's
/// path, component by component, and its kind.
pub struct Walked {
    pub path: Vec<String>,
    pub kind: EntryKind,
}

/// One file to embed: its key in the table, and its position among the
/// walk's results.
pub struct PlanEntry {
    pub key: String,
    pub index: usize,
}

/// Why no plan could be made.
#[derive(Clone, Copy, Debug, PartialEq, Eq, Structural)]
pub enum BuildError {
    /// The file at this position among the walk's results does not lie
    /// below the root, so it has no key.
    OutsideRoot(usize),
}

/// Whether a result of the walk is embedded: it succeeded and is a file.
pub open spec fn embeds(w: Option<Walked>) -> bool {
    w is Some && w->Some_0.kind is File
}

/// The path of a result of the walk, as a sequence of components.
pub open spec fn path_of(w: Option<Walked>) -> Seq<Seq<char>> {
    w->Some_0.path.deep_view()
}

/// Whether every embedded result lies below the root.
pub open spec fn all_under(root: Seq<Seq<char>>, ws: Seq<Option<Walked>>) -> bool {
    forall|i: int| 0 <= i < ws.len() && embeds(#[trigger] ws[i]) ==> is_under(root, path_of(ws[i]))
}

/// The plan for a walk: for each embedded result, in walk order, its key
/// and its position.
pub open spec fn plan_of(root: Seq<Seq<char>>, ws: Seq<Option<Walked>>, sep: Seq<char>) -> Seq<
    (Seq<char>, int),
>
    decreases ws.len(),
{
    if ws.len() == 0 {
        Seq::empty()
    } else {
        let rest = plan_of(root, ws.drop_last(), sep);
        if embeds(ws.last()) {
            rest.push((key_below(root, path_of(ws.last()), sep), ws.len() - 1))
        } else {
            rest
        }
    }
}

/// A plan as keys and positions.
pub open spec fn plan_view(p: Seq<PlanEntry>) -> Seq<(Seq<char>, int)> {
    p.map_values(|e: PlanEntry| (e.key@, e.index as int))
}

/// Chooses the files to embed among the results of a walk (`None` stands
/// for a result that was an error) and computes each one's key below
/// `root`, with `sep` between components. Errors and entries other than
/// files are passed over. A file that does not lie below the root is an
/// error: the first such one is named.
pub fn plan_embedding(root: &Vec<String>, walked: &Vec<Option<Walked>>, sep: &str) -> (r: Result<
    Vec<PlanEntry>,
    BuildError,
>)
    ensures
        r is Ok <==> all_under(root.deep_view(), walked@),
        r is Ok ==> plan_view(r->Ok_0@) == plan_of(root.deep_view(), walked@, sep@),
        r is Err ==> ({
            let i = r->Err_0->OutsideRoot_0 as int;
            &&& 0 <= i < walked.len()
            &&& embeds(walked@[i])
            &&& !is_under(root.deep_view(), path_of(walked@[i]))
            &&& all_under(root.deep_view(), walked@.take(i))
        }),
{
    let ghost rv = root.deep_view();
    let mut plan: Vec<PlanEntry> = Vec::new();
    let mut i: usize = 0;
    while i < walked.len()
        invariant
            i <= walked.len(),
            rv == root.deep_view(),
            all_under(rv, walked@.take(i as int)),
            plan_view(plan@) == plan_of(rv, walked@.take(i as int), sep@),
        decreases walked.len() - i,
    {
        let ghost before = walked@.take(i as int);
        let ghost after = walked@.take(i + 1);
        assert(after.drop_last() == before);
        match &walked[i] {
            Some(w) => {
                if w.kind.is_file() {
                    match relative_key(root, &w.path, sep) {
                        Some(key) => {
                            plan.push(PlanEntry { key, index: i });
                            assert(plan_view(plan@) =~= plan_view(plan@.drop_last()).push(
                                (key@, i as int),
                            ));
                        },
                        None => {
                            return Err(BuildError::OutsideRoot(i));
                        },
                    }
                }
            },
            None => {},
        }
        assert forall|k: int| 0 <= k < after.len() && embeds(#[trigger] after[k]) implies is_under(
            rv,
            path_of(after[k]),
        ) by {
            if k < i {
                assert(after[k] == before[k]);
            }
        }
        i += 1;
    }
    assert(walked@.take(walked.len() as int) =~= walked@);
    Ok(plan)
}

} // verus!
