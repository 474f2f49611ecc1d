//! What holds of every table built from a walk: one entry per file under its
//! relative key, no directory among the keys, and no dependence on the order
//! in which the walk met the files.
use vstd::prelude::*;
use crate::keys::key_below;
use crate::plan::{embeds, path_of, plan_of, Walked};
use crate::table::{keys_distinct, lemma_table_of_distinct, table_of};

verus! {

/// The key of the result at position `j` of a walk.
pub open spec fn key_at(root: Seq<Seq<char>>, ws: Seq<Option<Walked>>, sep: Seq<char>, j: int) -> Seq<
    char,
> {
    key_below(root, path_of(ws[j]), sep)
}

/// The table that a walk gives, where `files[j]` is the content of the file
/// met at position `j`.
pub open spec fn walk_table(
    root: Seq<Seq<char>>,
    ws: Seq<Option<Walked>>,
    sep: Seq<char>,
    files: Seq<Seq<u8>>,
) -> Map<Seq<char>, Seq<u8>> {
    table_of(plan_of(root, ws, sep).map_values(|p: (Seq<char>, int)| (p.0, files[p.1])))
}

/// Whether no two files of a walk have the same key.
pub open spec fn file_keys_distinct(root: Seq<Seq<char>>, ws: Seq<Option<Walked>>, sep: Seq<char>) -> bool {
    forall|i: int, j: int|
        0 <= i < ws.len() && 0 <= j < ws.len() && i != j && embeds(ws[i]) && embeds(ws[j])
            ==> #[trigger] key_at(root, ws, sep, i) != #[trigger] key_at(root, ws, sep, j)
}

/// Whether no two successful results of a walk, files or not, have the same
/// key.
pub open spec fn entry_keys_distinct(root: Seq<Seq<char>>, ws: Seq<Option<Walked>>, sep: Seq<char>) -> bool {
    forall|i: int, j: int|
        0 <= i < ws.len() && 0 <= j < ws.len() && i != j && ws[i] is Some && ws[j] is Some
            ==> #[trigger] key_at(root, ws, sep, i) != #[trigger] key_at(root, ws, sep, j)
}

/// A plan lists each embedded result once, in walk order, with its key.
pub proof fn lemma_plan_entries(root: Seq<Seq<char>>, ws: Seq<Option<Walked>>, sep: Seq<char>)
    ensures
        ({
            let p = plan_of(root, ws, sep);
            &&& forall|t: int|
                0 <= t < p.len() ==> 0 <= #[trigger] p[t].1 < ws.len() && embeds(ws[p[t].1])
                    && p[t].0 == key_at(root, ws, sep, p[t].1)
            &&& forall|t: int, u: int| 0 <= t < u < p.len() ==> #[trigger] p[t].1 < #[trigger] p[u].1
            &&& forall|j: int|
                0 <= j < ws.len() && embeds(#[trigger] ws[j]) ==> exists|t: int|
                    0 <= t < p.len() && p[t].1 == j
        }),
    decreases ws.len(),
{
    if ws.len() > 0 {
        let init = ws.drop_last();
        lemma_plan_entries(root, init, sep);
        let q = plan_of(root, init, sep);
        let p = plan_of(root, ws, sep);
        assert forall|t: int| 0 <= t < q.len() implies key_at(root, init, sep, q[t].1) == key_at(
            root,
            ws,
            sep,
            q[t].1,
        ) && init[q[t].1] == ws[q[t].1] by {
            let _ = q[t].1;
        }
        assert forall|j: int| 0 <= j < ws.len() && embeds(#[trigger] ws[j]) implies exists|t: int|
            0 <= t < p.len() && p[t].1 == j by {
            if j < ws.len() - 1 {
                assert(init[j] == ws[j]);
                let t = choose|t: int| 0 <= t < q.len() && q[t].1 == j;
                assert(p[t] == q[t]);
            } else {
                assert(p[p.len() - 1].1 == j);
            }
        }
    }
}

/// Each file of a walk stands in the table exactly once, under its key
/// below the root and with its own content, and the table holds nothing
/// else — provided no two files share a key.
pub proof fn lemma_one_entry_per_file(
    root: Seq<Seq<char>>,
    ws: Seq<Option<Walked>>,
    sep: Seq<char>,
    files: Seq<Seq<u8>>,
)
    requires
        files.len() == ws.len(),
        file_keys_distinct(root, ws, sep),
    ensures
        forall|j: int|
            0 <= j < ws.len() && embeds(#[trigger] ws[j]) ==> walk_table(root, ws, sep, files).contains_key(
                key_at(root, ws, sep, j),
            ) && walk_table(root, ws, sep, files)[key_at(root, ws, sep, j)] == files[j],
        forall|k: Seq<char>|
            #[trigger] walk_table(root, ws, sep, files).contains_key(k) ==> exists|j: int|
                0 <= j < ws.len() && embeds(ws[j]) && key_at(root, ws, sep, j) == k,
{
    lemma_plan_entries(root, ws, sep);
    let p = plan_of(root, ws, sep);
    let pairs = p.map_values(|e: (Seq<char>, int)| (e.0, files[e.1]));
    assert forall|a: int, b: int| 0 <= a < pairs.len() && 0 <= b < pairs.len() && a != b implies #[trigger] pairs[a].0
        != #[trigger] pairs[b].0 by {
        if a < b {
            assert(p[a].1 < p[b].1);
        } else {
            assert(p[b].1 < p[a].1);
        }
        assert(key_at(root, ws, sep, p[a].1) != key_at(root, ws, sep, p[b].1));
    }
    assert(keys_distinct(pairs));
    lemma_table_of_distinct(pairs);
    assert forall|j: int| 0 <= j < ws.len() && embeds(#[trigger] ws[j]) implies walk_table(
        root,
        ws,
        sep,
        files,
    ).contains_key(key_at(root, ws, sep, j)) && walk_table(root, ws, sep, files)[key_at(
        root,
        ws,
        sep,
        j,
    )] == files[j] by {
        let t = choose|t: int| 0 <= t < p.len() && p[t].1 == j;
        assert(pairs[t].0 == key_at(root, ws, sep, j));
    }
    assert forall|k: Seq<char>| #[trigger] walk_table(root, ws, sep, files).contains_key(k) implies exists|j: int|
        0 <= j < ws.len() && embeds(ws[j]) && key_at(root, ws, sep, j) == k by {
        let t = choose|t: int| 0 <= t < pairs.len() && pairs[t].0 == k;
        assert(p[t].1 < ws.len());
    }
}


/// A directory met by the walk never is a key of the table, where the
/// walk's entries have distinct keys.
pub proof fn lemma_no_directory_keys(
    root: Seq<Seq<char>>,
    ws: Seq<Option<Walked>>,
    sep: Seq<char>,
    files: Seq<Seq<u8>>,
)
    requires
        files.len() == ws.len(),
        entry_keys_distinct(root, ws, sep),
    ensures
        forall|j: int|
            0 <= j < ws.len() && #[trigger] ws[j] is Some && ws[j]->Some_0.kind is Dir
                ==> !walk_table(root, ws, sep, files).contains_key(key_at(root, ws, sep, j)),
{
    assert(file_keys_distinct(root, ws, sep));
    lemma_one_entry_per_file(root, ws, sep, files);
    assert forall|j: int|
        0 <= j < ws.len() && #[trigger] ws[j] is Some && ws[j]->Some_0.kind is Dir
            implies !walk_table(root, ws, sep, files).contains_key(key_at(root, ws, sep, j)) by {
        if walk_table(root, ws, sep, files).contains_key(key_at(root, ws, sep, j)) {
            let i = choose|i: int| 0 <= i < ws.len() && embeds(ws[i]) && key_at(root, ws, sep, i)
                == key_at(root, ws, sep, j);
            assert(i != j);
        }
    }
}

/// Two walks that meet the same files, with the same keys and contents, in
/// whatever order, give the same table.
pub proof fn lemma_table_ignores_order(
    root: Seq<Seq<char>>,
    sep: Seq<char>,
    ws1: Seq<Option<Walked>>,
    files1: Seq<Seq<u8>>,
    ws2: Seq<Option<Walked>>,
    files2: Seq<Seq<u8>>,
)
    requires
        files1.len() == ws1.len(),
        files2.len() == ws2.len(),
        file_keys_distinct(root, ws1, sep),
        file_keys_distinct(root, ws2, sep),
        forall|i: int|
            0 <= i < ws1.len() && embeds(#[trigger] ws1[i]) ==> exists|j: int|
                0 <= j < ws2.len() && embeds(ws2[j]) && key_at(root, ws2, sep, j) == key_at(
                    root,
                    ws1,
                    sep,
                    i,
                ) && files2[j] == files1[i],
        forall|j: int|
            0 <= j < ws2.len() && embeds(#[trigger] ws2[j]) ==> exists|i: int|
                0 <= i < ws1.len() && embeds(ws1[i]) && key_at(root, ws1, sep, i) == key_at(
                    root,
                    ws2,
                    sep,
                    j,
                ) && files1[i] == files2[j],
    ensures
        walk_table(root, ws1, sep, files1) == walk_table(root, ws2, sep, files2),
{
    lemma_one_entry_per_file(root, ws1, sep, files1);
    lemma_one_entry_per_file(root, ws2, sep, files2);
    let t1 = walk_table(root, ws1, sep, files1);
    let t2 = walk_table(root, ws2, sep, files2);
    assert forall|k: Seq<char>| t1.contains_key(k) <==> t2.contains_key(k) by {
        if t1.contains_key(k) {
            let i = choose|i: int| 0 <= i < ws1.len() && embeds(ws1[i]) && key_at(root, ws1, sep, i) == k;
            let j = choose|j: int|
                0 <= j < ws2.len() && embeds(ws2[j]) && key_at(root, ws2, sep, j) == key_at(root, ws1, sep, i)
                    && files2[j] == files1[i];
            assert(t2.contains_key(key_at(root, ws2, sep, j)));
        }
        if t2.contains_key(k) {
            let j = choose|j: int| 0 <= j < ws2.len() && embeds(ws2[j]) && key_at(root, ws2, sep, j) == k;
            let i = choose|i: int|
                0 <= i < ws1.len() && embeds(ws1[i]) && key_at(root, ws1, sep, i) == key_at(root, ws2, sep, j)
                    && files1[i] == files2[j];
            assert(t1.contains_key(key_at(root, ws1, sep, i)));
        }
    }
    assert forall|k: Seq<char>| t1.contains_key(k) implies t1[k] == t2[k] by {
        let i = choose|i: int| 0 <= i < ws1.len() && embeds(ws1[i]) && key_at(root, ws1, sep, i) == k;
        let j = choose|j: int|
            0 <= j < ws2.len() && embeds(ws2[j]) && key_at(root, ws2, sep, j) == key_at(root, ws1, sep, i)
                && files2[j] == files1[i];
        assert(t1[key_at(root, ws1, sep, i)] == files1[i]);
        assert(t2[key_at(root, ws2, sep, j)] == files2[j]);
    }
    assert(t1 =~= t2);
}

} // verus!
