//! What a scan reads of a whole tree of directories.
use vstd::prelude::*;

use crate::io::{scan_step, wanted, DirEntry, EntryKind, ScanRule, ScanStep};

verus! {

/// An entry and, if it is a directory, what its listing gives; a directory that cannot
/// be listed gives nothing.
pub struct Node {
    pub entry: DirEntry,
    pub inside: Seq<Node>,
}

/// A position leads to a node: the number of an entry in the listing, and so on in the
/// listing of that directory.
pub open spec fn leads(nodes: Seq<Node>, position: Seq<int>) -> bool
    decreases position.len(),
{
    &&& position.len() > 0
    &&& 0 <= position[0] < nodes.len()
    &&& position.len() > 1 ==> nodes[position[0]].entry.kind == EntryKind::Directory && leads(
        nodes[position[0]].inside,
        position.drop_first(),
    )
}

/// The entry that a position leads to.
pub open spec fn entry_at(nodes: Seq<Node>, position: Seq<int>) -> DirEntry
    decreases position.len(),
{
    if position.len() <= 1 {
        nodes[position[0]].entry
    } else {
        entry_at(nodes[position[0]].inside, position.drop_first())
    }
}

/// How many directories below the listing a position leads.
pub open spec fn below(position: Seq<int>) -> int {
    position.len() - 1
}

/// The position within the listing of the `k`th directory, as seen from outside.
pub open spec fn inside_of(k: int, position: Seq<int>) -> Seq<int> {
    seq![k] + position
}

/// The positions of the files that a scan reads, starting with a listing at `depth`: it
/// does about each entry what its step says.
pub open spec fn scanned(
    rule: ScanRule,
    depth: usize,
    max_depth: usize,
    nodes: Seq<Node>,
) -> Seq<Seq<int>>
    decreases nodes,
{
    if depth > max_depth || nodes.len() == 0 {
        Seq::empty()
    } else {
        let k = nodes.len() - 1;
        let before = scanned(rule, depth, max_depth, nodes.drop_last());
        match scan_step(rule, depth, nodes[k].entry) {
            ScanStep::Descend(deeper) => before + scanned(
                rule,
                deeper,
                max_depth,
                nodes[k].inside,
            ).map_values(|position: Seq<int>| inside_of(k, position)),
            ScanStep::Read => before.push(seq![k]),
            ScanStep::Skip => before,
        }
    }
}

/// No directory is found at a depth beyond which there is no counting.
pub open spec fn depth_countable(depth: usize, max_depth: usize, nodes: Seq<Node>) -> bool {
    forall|position: Seq<int>| #[trigger]
        leads(nodes, position) && entry_at(nodes, position).kind == EntryKind::Directory && depth
            + below(position) <= max_depth ==> depth + below(position) < usize::MAX
}

/// A position leads to an event file, no deeper than the scan goes.
pub open spec fn within_reach(
    rule: ScanRule,
    depth: usize,
    max_depth: usize,
    nodes: Seq<Node>,
    position: Seq<int>,
) -> bool {
    leads(nodes, position) && wanted(rule, entry_at(nodes, position)) && below(position)
        <= max_depth - depth
}

/// Without the last entry, all positions but those of the last entry are as they were.
proof fn lemma_without_last(nodes: Seq<Node>, position: Seq<int>)
    requires
        nodes.len() > 0,
    ensures
        leads(nodes.drop_last(), position) <==> leads(nodes, position) && position[0] < nodes.len()
            - 1,
        leads(nodes.drop_last(), position) ==> entry_at(nodes.drop_last(), position) == entry_at(
            nodes,
            position,
        ),
{
    if position.len() > 0 && 0 <= position[0] < nodes.len() - 1 {
        assert(nodes.drop_last()[position[0]] == nodes[position[0]]);
    }
}

/// A position within a directory, as seen from outside.
proof fn lemma_inside(nodes: Seq<Node>, k: int, position: Seq<int>)
    requires
        0 <= k < nodes.len(),
        nodes[k].entry.kind == EntryKind::Directory,
        position.len() > 0,
    ensures
        leads(nodes, inside_of(k, position)) == leads(nodes[k].inside, position),
        entry_at(nodes, inside_of(k, position)) == entry_at(nodes[k].inside, position),
        below(inside_of(k, position)) == below(position) + 1,
{
    assert(inside_of(k, position).drop_first() =~= position);
}

/// A scan reads exactly the event files that lie at most as many directories below as
/// there are depths left, and each of them once.
pub proof fn law_scan_reads_each_event_file_once(
    rule: ScanRule,
    depth: usize,
    max_depth: usize,
    nodes: Seq<Node>,
)
    requires
        depth_countable(depth, max_depth, nodes),
    ensures
        scanned(rule, depth, max_depth, nodes).no_duplicates(),
        forall|position: Seq<int>| #[trigger]
            scanned(rule, depth, max_depth, nodes).contains(position) <==> within_reach(
                rule,
                depth,
                max_depth,
                nodes,
                position,
            ),
    decreases nodes,
{
    let found = scanned(rule, depth, max_depth, nodes);
    if depth <= max_depth && nodes.len() > 0 {
        let k = nodes.len() - 1;
        let rest = nodes.drop_last();
        let before = scanned(rule, depth, max_depth, rest);
        assert(depth_countable(depth, max_depth, rest)) by {
            assert forall|position: Seq<int>| #[trigger]
                leads(rest, position) && entry_at(rest, position).kind == EntryKind::Directory
                    && depth + below(position) <= max_depth implies depth + below(position)
                < usize::MAX by {
                lemma_without_last(nodes, position);
            }
        }
        law_scan_reads_each_event_file_once(rule, depth, max_depth, rest);
        assert forall|position: Seq<int>| #[trigger]
            before.contains(position) <==> within_reach(rule, depth, max_depth, nodes, position)
                && position[0] < k by {
            lemma_without_last(nodes, position);
        }
        match scan_step(rule, depth, nodes[k].entry) {
            ScanStep::Descend(deeper) => {
                let inside = nodes[k].inside;
                assert(leads(nodes, seq![k]) && below(seq![k]) == 0);
                assert(entry_at(nodes, seq![k]) == nodes[k].entry);
                assert(deeper == depth + 1);
                assert(depth_countable(deeper, max_depth, inside)) by {
                    assert forall|position: Seq<int>| #[trigger]
                        leads(inside, position) && entry_at(inside, position).kind
                            == EntryKind::Directory && deeper + below(position)
                            <= max_depth implies deeper + below(position) < usize::MAX by {
                        lemma_inside(nodes, k, position);
                        assert(leads(nodes, inside_of(k, position)));
                    }
                }
                law_scan_reads_each_event_file_once(rule, deeper, max_depth, inside);
                let deep = scanned(rule, deeper, max_depth, inside);
                let seen = deep.map_values(|position: Seq<int>| inside_of(k, position));
                assert(found == before + seen);
                lemma_seen(deep, k);
                assert forall|position: Seq<int>| #[trigger]
                    found.contains(position) <==> within_reach(
                        rule,
                        depth,
                        max_depth,
                        nodes,
                        position,
                    ) by {
                    lemma_in_either(before, seen, position);
                    if seen.contains(position) {
                        let inner = position.drop_first();
                        assert(deep.contains(inner));
                        lemma_inside(nodes, k, inner);
                    }
                    if within_reach(rule, depth, max_depth, nodes, position) && position[0] == k {
                        let inner = position.drop_first();
                        assert(position.len() > 1);
                        assert(position =~= inside_of(k, inner));
                        lemma_inside(nodes, k, inner);
                        assert(deep.contains(inner));
                    }
                }
                assert forall|i: int, j: int|
                    0 <= i < before.len() && 0 <= j < seen.len() implies before[i] != seen[j] by {
                    assert(before.contains(before[i]));
                    assert(seen.contains(seen[j]));
                }
                assert(found.no_duplicates());
            },
            ScanStep::Read => {
                let here = seq![k];
                assert(entry_at(nodes, here) == nodes[k].entry);
                assert(found == before.push(here));
                assert(!before.contains(here));
                assert forall|position: Seq<int>| #[trigger]
                    found.contains(position) <==> within_reach(
                        rule,
                        depth,
                        max_depth,
                        nodes,
                        position,
                    ) by {
                    assert(found =~= before + seq![here]);
                    lemma_in_either(before, seq![here], position);
                    assert(seq![here].contains(position) <==> position == here) by {
                        assert(seq![here][0] == here);
                    }
                    if within_reach(rule, depth, max_depth, nodes, position) && position[0] == k {
                        assert(position =~= here);
                    }
                }
            },
            ScanStep::Skip => {},
        }
    }
}

proof fn lemma_in_either(a: Seq<Seq<int>>, b: Seq<Seq<int>>, position: Seq<int>)
    ensures
        (a + b).contains(position) <==> a.contains(position) || b.contains(position),
{
    if a.contains(position) {
        let i = a.index_of(position);
        assert((a + b)[i] == position);
    }
    if b.contains(position) {
        let i = b.index_of(position);
        assert((a + b)[a.len() + i] == position);
    }
}

/// Positions within a directory, as seen from outside: each begins with the number of the
/// directory, and they differ as they do inside.
proof fn lemma_seen(deep: Seq<Seq<int>>, k: int)
    ensures
        ({
            let seen = deep.map_values(|position: Seq<int>| inside_of(k, position));
            &&& deep.no_duplicates() ==> seen.no_duplicates()
            &&& forall|position: Seq<int>| #[trigger]
                seen.contains(position) <==> position.len() > 0 && position[0] == k
                    && deep.contains(position.drop_first())
        }),
{
    let seen = deep.map_values(|position: Seq<int>| inside_of(k, position));
    assert forall|i: int| 0 <= i < deep.len() implies (#[trigger] seen[i]).drop_first() == deep[i]
        && seen[i][0] == k by {
        assert(seen[i].drop_first() =~= deep[i]);
    }
    assert forall|position: Seq<int>| #[trigger]
        seen.contains(position) <==> position.len() > 0 && position[0] == k && deep.contains(
            position.drop_first(),
        ) by {
        if seen.contains(position) {
            let i = seen.index_of(position);
            assert(seen[i] == position);
            assert(deep[i] == position.drop_first());
        }
        if position.len() > 0 && position[0] == k && deep.contains(position.drop_first()) {
            let i = deep.index_of(position.drop_first());
            assert(seen[i] =~= position);
        }
    }
    if deep.no_duplicates() {
        assert forall|i: int, j: int|
            0 <= i < seen.len() && 0 <= j < seen.len() && i != j implies seen[i] != seen[j] by {
            assert(deep[i] != deep[j]);
            assert(seen[i].drop_first() == deep[i] && seen[j].drop_first() == deep[j]);
        }
    }
}

} // verus!
