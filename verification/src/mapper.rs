//! The dependency mapper: from each file's defined and needed symbol sets,
//! build the canonical map that sends every file to the set of files that
//! satisfy its needed symbols. A symbol's definers are looked up in the
//! complete definition index; candidates are added all at once, and skipped
//! entirely when one of them is already a dependency.
use vstd::prelude::*;
use crate::graph::DepEntry;
use crate::graph::DepMap;
use crate::graph::has_entry;
use crate::graph::no_dups;
use crate::graph::sorted_strict;

verus! {

broadcast use vstd::seq_lib::group_seq_properties, vstd::seq_lib::seq_to_set_is_finite;

/// One input file: its identifier, the symbols it defines, and the symbols
/// it references but does not define.
pub struct FileSyms {
    pub id: u64,
    pub defined: Vec<String>,
    pub needed: Vec<String>,
}

/// Some string in `ss` spells `s`.
pub open spec fn contains_str(ss: Seq<String>, s: Seq<char>) -> bool {
    exists|i: int| 0 <= i < ss.len() && ss[i]@ == s
}

/// File `f` defines the symbol spelled `s`.
pub open spec fn file_defines(f: FileSyms, s: Seq<char>) -> bool {
    contains_str(f.defined@, s)
}

/// The definition index entry for symbol `s`: every file defining it.
pub open spec fn definers(files: Seq<FileSyms>, s: Seq<char>) -> Set<u64> {
    Set::new(
        |id: u64|
            exists|i: int| 0 <= i < files.len() && files[i].id == id && file_defines(#[trigger] files[i], s),
    )
}

/// The input set mentions a file with identifier `id`.
pub open spec fn has_file(files: Seq<FileSyms>, id: u64) -> bool {
    exists|i: int| 0 <= i < files.len() && files[i].id == id
}

/// All file identifiers are distinct.
pub open spec fn unique_ids(files: Seq<FileSyms>) -> bool {
    forall|i: int, j: int|
        0 <= i < files.len() && 0 <= j < files.len() && i != j ==> files[i].id != files[j].id
}

/// One file's needed symbols, resolved left to right against the complete
/// index: a symbol's candidate definers are all added unless one of them is
/// already present, in which case none are; a symbol nobody defines adds
/// nothing.
pub open spec fn resolve(files: Seq<FileSyms>, needed: Seq<String>, acc: Set<u64>) -> Set<u64>
    decreases needed.len(),
{
    if needed.len() == 0 {
        acc
    } else {
        let ds = definers(files, needed[0]@);
        let acc2 = if acc.disjoint(ds) {
            acc.union(ds)
        } else {
            acc
        };
        resolve(files, needed.drop_first(), acc2)
    }
}

/// The position of the file with identifier `id`.
pub open spec fn index_of(files: Seq<FileSyms>, id: u64) -> int {
    choose|i: int| 0 <= i < files.len() && files[i].id == id
}

/// The needed symbols of the file with identifier `id`.
pub open spec fn needed_of(files: Seq<FileSyms>, id: u64) -> Seq<String> {
    files[index_of(files, id)].needed@
}

/// The dependency set the mapper owes the file with identifier `id`.
pub open spec fn deps_of_spec(files: Seq<FileSyms>, id: u64) -> Set<u64> {
    resolve(files, needed_of(files, id), Set::empty())
}

/// What `build_dependency_map` returns: a well-formed map whose keys are
/// exactly the input files and whose rows carry exactly the resolved
/// dependency sets, in sorted order.
pub open spec fn is_dependency_map_of(m: DepMap, files: Seq<FileSyms>) -> bool {
    &&& m.wf()
    &&& forall|x: u64| has_entry(m.entries@, x) <==> has_file(files, x)
    &&& forall|k: int|
        0 <= k < m.entries@.len() ==> (#[trigger] m.entries@[k]).deps@.to_set() == deps_of_spec(
            files,
            m.entries@[k].id,
        )
}

/// Test whether file `f` defines the symbol spelled by `sym`.
fn defines(f: &FileSyms, sym: &String) -> (r: bool)
    ensures
        r == file_defines(*f, sym@),
{
    let mut i: usize = 0;
    while i < f.defined.len()
        invariant
            0 <= i <= f.defined@.len(),
            forall|k: int| 0 <= k < i ==> f.defined@[k]@ != sym@,
        decreases f.defined@.len() - i,
    {
        if f.defined[i].eq(sym) {
            assert(f.defined@[i as int]@ == sym@);
            return true;
        }
        i = i + 1;
    }
    false
}

/// Collect the identifiers of every file that defines `sym`, in input
/// order.
fn collect_definers(files: &Vec<FileSyms>, sym: &String) -> (cands: Vec<u64>)
    requires
        unique_ids(files@),
    ensures
        cands@.to_set() == definers(files@, sym@),
        no_dups(cands@),
        forall|x: u64| cands@.contains(x) ==> has_file(files@, x),
{
    let mut cands: Vec<u64> = Vec::new();
    let mut i: usize = 0;
    while i < files.len()
        invariant
            unique_ids(files@),
            0 <= i <= files@.len(),
            forall|x: u64|
                cands@.contains(x) <==> exists|k: int|
                    0 <= k < i && files@[k].id == x && file_defines(#[trigger] files@[k], sym@),
            no_dups(cands@),
        decreases files@.len() - i,
    {
        let ghost cands0 = cands@;
        if defines(&files[i], sym) {
            cands.push(files[i].id);
            proof {
                assert(cands@ == cands0.push(files@[i as int].id));
                assert forall|x: u64| cands@.contains(x) implies exists|k: int|
                    0 <= k < i + 1 && files@[k].id == x && file_defines(
                    #[trigger] files@[k],
                    sym@,
                ) by {
                    if cands0.contains(x) {
                    } else {
                        assert(x == files@[i as int].id);
                    }
                }
                assert(no_dups(cands@)) by {
                    if cands0.contains(files@[i as int].id) {
                        let k = choose|k: int|
                            0 <= k < i && files@[k].id == files@[i as int].id && file_defines(
                                files@[k],
                                sym@,
                            );
                        assert(false);
                    }
                    assert forall|a: int, b: int|
                        0 <= a < cands@.len() && 0 <= b < cands@.len() && a != b implies cands@[a]
                        != cands@[b] by {
                        if a < cands0.len() && b < cands0.len() {
                        } else if a == cands0.len() {
                            assert(cands0.contains(cands0[b]));
                        } else if b == cands0.len() {
                            assert(cands0.contains(cands0[a]));
                        }
                    }
                }
            }
        }
        i = i + 1;
    }
    proof {
        assert forall|x: u64| cands@.contains(x) implies definers(files@, sym@).contains(x) by {}
        assert forall|x: u64| definers(files@, sym@).contains(x) implies cands@.contains(x) by {}
        assert(cands@.to_set() =~= definers(files@, sym@));
    }
    cands
}

/// Does any candidate already sit in the dependency list?
fn any_in(deps: &Vec<u64>, cands: &Vec<u64>) -> (r: bool)
    ensures
        r == exists|x: u64| cands@.contains(x) && deps@.contains(x),
{
    let mut i: usize = 0;
    while i < cands.len()
        invariant
            0 <= i <= cands@.len(),
            forall|k: int| 0 <= k < i ==> !deps@.contains(#[trigger] cands@[k]),
        decreases cands@.len() - i,
    {
        if crate::graph::contains_id(deps, cands[i]) {
            assert(cands@.contains(cands@[i as int]));
            return true;
        }
        i = i + 1;
    }
    proof {
        if exists|x: u64| cands@.contains(x) && deps@.contains(x) {
            let x = choose|x: u64| cands@.contains(x) && deps@.contains(x);
            let k = choose|k: int| 0 <= k < cands@.len() && cands@[k] == x;
        }
    }
    false
}

/// Insert `x` into a strictly sorted vector, keeping it strictly sorted.
fn insert_sorted(v: &mut Vec<u64>, x: u64)
    requires
        sorted_strict(old(v)@),
        !old(v)@.contains(x),
    ensures
        sorted_strict(final(v)@),
        final(v)@.to_set() == old(v)@.to_set().insert(x),
        final(v)@.len() == old(v)@.len() + 1,
{
    let ghost v0 = v@;
    let mut i: usize = 0;
    while i < v.len() && v[i as usize] < x
        invariant
            v@ == v0,
            0 <= i <= v@.len(),
            forall|k: int| 0 <= k < i ==> v@[k] < x,
        decreases v@.len() - i,
    {
        i = i + 1;
    }
    proof {
        assert forall|k: int| i <= k < v0.len() implies v0[k] > x by {
            if v0[k] < x {
                assert(v0[i as int] < x || !(i < v0.len()));
            }
            if v0[k] == x {
                assert(v0.contains(x));
            }
            assert(i < v0.len() ==> v0[i as int] >= x);
            if k > i {
                assert(v0[i as int] < v0[k]);
            }
        }
    }
    v.insert(i, x);
    proof {
        assert(v@ == v0.insert(i as int, x));
        assert forall|a: int, b: int| 0 <= a < b < v@.len() implies v@[a] < v@[b] by {
            assert(v@[a] == if a < i { v0[a] } else if a == i { x } else { v0[a - 1] });
            assert(v@[b] == if b < i { v0[b] } else if b == i { x } else { v0[b - 1] });
        }
        assert forall|y: u64| v@.contains(y) implies v0.to_set().insert(x).contains(y) by {
            let k = choose|k: int| 0 <= k < v@.len() && v@[k] == y;
            if k < i {
                assert(v0[k] == y);
            } else if k > i {
                assert(v0[k - 1] == y);
            }
        }
        assert forall|y: u64| v0.to_set().insert(x).contains(y) implies v@.contains(y) by {
            if y == x {
                assert(v@[i as int] == y);
            } else {
                let k = choose|k: int| 0 <= k < v0.len() && v0[k] == y;
                if k < i {
                    assert(v@[k] == y);
                } else {
                    assert(v@[k + 1] == y);
                }
            }
        }
        assert(v@.to_set() =~= v0.to_set().insert(x));
    }
}

/// Resolve one file's needed symbols against the complete input set, in
/// their original order, returning the canonical (sorted) dependency list.
fn resolve_file(files: &Vec<FileSyms>, needed: &Vec<String>) -> (deps: Vec<u64>)
    requires
        unique_ids(files@),
    ensures
        sorted_strict(deps@),
        deps@.to_set() == resolve(files@, needed@, Set::empty()),
        forall|x: u64| deps@.contains(x) ==> has_file(files@, x),
{
    let mut deps: Vec<u64> = Vec::new();
    let mut i: usize = 0;
    proof {
        assert(deps@.to_set() =~= Set::<u64>::empty());
    }
    while i < needed.len()
        invariant
            unique_ids(files@),
            0 <= i <= needed@.len(),
            sorted_strict(deps@),
            forall|x: u64| deps@.contains(x) ==> has_file(files@, x),
            resolve(files@, needed@.skip(i as int), deps@.to_set()) == resolve(
                files@,
                needed@,
                Set::empty(),
            ),
        decreases needed@.len() - i,
    {
        let ghost rest = needed@.skip(i as int);
        proof {
            assert(rest.len() > 0);
            assert(rest[0] == needed@[i as int]);
            assert(rest.drop_first() == needed@.skip(i as int + 1));
        }
        let cands = collect_definers(files, &needed[i]);
        let ghost ds = definers(files@, needed@[i as int]@);
        if cands.len() > 0 && !any_in(&deps, &cands) {
            proof {
                assert forall|x: u64| !(deps@.to_set().contains(x) && ds.contains(x)) by {
                    if ds.contains(x) {
                        assert(cands@.to_set().contains(x));
                        assert(cands@.contains(x));
                    }
                }
                assert(deps@.to_set().disjoint(ds));
            }
            let ghost deps_before = deps@;
            let mut c: usize = 0;
            while c < cands.len()
                invariant
                    unique_ids(files@),
                    0 <= c <= cands@.len(),
                    sorted_strict(deps@),
                    no_dups(cands@),
                    cands@.to_set() == ds,
                    forall|x: u64| cands@.contains(x) ==> has_file(files@, x),
                    forall|x: u64| deps_before.contains(x) ==> has_file(files@, x),
                    forall|x: u64| deps@.contains(x) ==> has_file(files@, x),
                    forall|k: int| c <= k < cands@.len() ==> !deps@.contains(#[trigger] cands@[k]),
                    deps@.to_set() == deps_before.to_set().union(cands@.take(c as int).to_set()),
                decreases cands@.len() - c,
            {
                let ghost dprev = deps@;
                proof {
                    assert(!deps@.contains(cands@[c as int]));
                }
                insert_sorted(&mut deps, cands[c]);
                proof {
                    let x = cands@[c as int];
                    assert(deps@.to_set() == dprev.to_set().insert(x));
                    assert(cands@.take(c as int + 1) == cands@.take(c as int).push(x));
                    assert(cands@.take(c as int + 1).to_set() =~= cands@.take(
                        c as int,
                    ).to_set().insert(x));
                    assert(deps@.to_set() =~= deps_before.to_set().union(
                        cands@.take(c as int + 1).to_set(),
                    ));
                    assert forall|k: int|
                        c + 1 <= k < cands@.len() implies !deps@.contains(
                        #[trigger] cands@[k],
                    ) by {
                        assert(cands@[k] != x);
                        if dprev.to_set().contains(cands@[k]) {
                            assert(dprev.contains(cands@[k]));
                        }
                        assert(!dprev.to_set().insert(x).contains(cands@[k]));
                        if deps@.contains(cands@[k]) {
                            assert(deps@.to_set().contains(cands@[k]));
                        }
                    }
                    assert forall|x2: u64| deps@.contains(x2) implies has_file(files@, x2) by {
                        assert(deps@.to_set().contains(x2));
                        if deps_before.to_set().contains(x2) {
                            assert(deps_before.contains(x2));
                        } else {
                            assert(cands@.take(c as int + 1).to_set().contains(x2));
                            assert(cands@.take(c as int + 1).contains(x2));
                            let k = choose|k: int|
                                0 <= k < c + 1 && #[trigger] cands@.take(c as int + 1)[k] == x2;
                            assert(cands@[k] == x2);
                            assert(cands@.contains(x2));
                        }
                    }
                }
                c = c + 1;
            }
            proof {
                assert(cands@.take(cands@.len() as int) == cands@);
                assert(deps@.to_set() =~= deps_before.to_set().union(ds));
                assert(resolve(files@, rest, deps_before.to_set()) == resolve(
                    files@,
                    rest.drop_first(),
                    deps_before.to_set().union(ds),
                ));
            }
        } else {
            proof {
                if cands.len() == 0 {
                    assert forall|x: u64| !ds.contains(x) by {
                        if ds.contains(x) {
                            assert(cands@.to_set().contains(x));
                            assert(cands@.contains(x));
                        }
                    }
                    assert(ds =~= Set::<u64>::empty());
                    assert(deps@.to_set().union(ds) =~= deps@.to_set());
                    assert(deps@.to_set().disjoint(ds));
                } else {
                    let x = choose|x: u64| cands@.contains(x) && deps@.contains(x);
                    assert(cands@.to_set().contains(x));
                    assert(deps@.to_set().contains(x));
                    assert(!deps@.to_set().disjoint(ds));
                }
            }
        }
        i = i + 1;
    }
    proof {
        assert(needed@.skip(needed@.len() as int).len() == 0);
    }
    deps
}

/// Insert a row into a map kept sorted strictly by id.
fn insert_entry(es: &mut Vec<DepEntry>, e: DepEntry)
    requires
        forall|i: int, j: int| 0 <= i < j < old(es)@.len() ==> old(es)@[i].id < old(es)@[j].id,
        !has_entry(old(es)@, e.id),
    ensures
        final(es)@.len() == old(es)@.len() + 1,
        forall|i: int, j: int| 0 <= i < j < final(es)@.len() ==> final(es)@[i].id < final(es)@[j].id,
        forall|k: int|
            0 <= k < final(es)@.len() ==> old(es)@.contains(#[trigger] final(es)@[k])
                || final(es)@[k] == e,
        forall|x: u64| has_entry(final(es)@, x) <==> (has_entry(old(es)@, x) || x == e.id),
{
    let ghost v0 = es@;
    let ghost eid = e.id;
    let mut i: usize = 0;
    while i < es.len() && es[i as usize].id < e.id
        invariant
            es@ == v0,
            eid == e.id,
            0 <= i <= v0.len(),
            forall|k: int| 0 <= k < i ==> v0[k].id < eid,
        decreases v0.len() - i,
    {
        i = i + 1;
    }
    proof {
        assert forall|k: int| i <= k < v0.len() implies v0[k].id > eid by {
            if v0[k].id == eid {
                assert(has_entry(v0, eid));
            }
            assert(i < v0.len() ==> v0[i as int].id >= eid);
            if k > i {
                assert(v0[i as int].id < v0[k].id);
            }
        }
    }
    es.insert(i, e);
    proof {
        assert(es@ == v0.insert(i as int, e));
        assert forall|a: int, b: int| 0 <= a < b < es@.len() implies es@[a].id < es@[b].id by {
            assert(es@[a] == if a < i { v0[a] } else if a == i { e } else { v0[a - 1] });
            assert(es@[b] == if b < i { v0[b] } else if b == i { e } else { v0[b - 1] });
        }
        assert forall|k: int|
            0 <= k < es@.len() implies v0.contains(#[trigger] es@[k]) || es@[k] == e by {
            if k < i {
                assert(es@[k] == v0[k]);
            } else if k > i {
                assert(es@[k] == v0[k - 1]);
            }
        }
        assert forall|x: u64| has_entry(es@, x) implies (has_entry(v0, x) || x == eid) by {
            let k = choose|k: int| 0 <= k < es@.len() && es@[k].id == x;
            if k < i {
                assert(v0[k].id == x);
            } else if k > i {
                assert(v0[k - 1].id == x);
            }
        }
        assert forall|x: u64| (has_entry(v0, x) || x == eid) implies has_entry(es@, x) by {
            if x == eid {
                assert(es@[i as int].id == x);
            } else {
                let k = choose|k: int| 0 <= k < v0.len() && v0[k].id == x;
                if k < i {
                    assert(es@[k].id == x);
                } else {
                    assert(es@[k + 1].id == x);
                }
            }
        }
    }
}

/// With all ids distinct, looking a file's position up by its id finds the
/// file itself.
pub proof fn lemma_index_of(files: Seq<FileSyms>, i: int)
    requires
        unique_ids(files),
        0 <= i < files.len(),
    ensures
        index_of(files, files[i].id) == i,
{
    let j = index_of(files, files[i].id);
    assert(0 <= j < files.len() && files[j].id == files[i].id);
}

/// Build the canonical dependency map: one row per input file, rows sorted
/// by file id, each row's dependency list the sorted resolution of that
/// file's needed symbols against the complete definition index.
pub fn build_dependency_map(files: &Vec<FileSyms>) -> (m: DepMap)
    requires
        unique_ids(files@),
    ensures
        is_dependency_map_of(m, files@),
        forall|k: int, b: u64|
            0 <= k < m.entries@.len() && #[trigger] m.entries@[k].deps@.contains(b) ==> has_file(
                files@,
                b,
            ),
{
    let mut entries: Vec<DepEntry> = Vec::new();
    let mut i: usize = 0;
    while i < files.len()
        invariant
            unique_ids(files@),
            0 <= i <= files@.len(),
            forall|a: int, b: int| 0 <= a < b < entries@.len() ==> entries@[a].id < entries@[b].id,
            forall|x: u64|
                has_entry(entries@, x) <==> exists|k: int| 0 <= k < i && files@[k].id == x,
            forall|k: int|
                0 <= k < entries@.len() ==> sorted_strict((#[trigger] entries@[k]).deps@),
            forall|k: int|
                0 <= k < entries@.len() ==> (#[trigger] entries@[k]).deps@.to_set() == deps_of_spec(
                    files@,
                    entries@[k].id,
                ),
            forall|k: int, b: u64|
                0 <= k < entries@.len() && #[trigger] entries@[k].deps@.contains(b) ==> has_file(
                    files@,
                    b,
                ),
        decreases files@.len() - i,
    {
        let deps = resolve_file(files, &files[i].needed);
        let ghost fid = files@[i as int].id;
        proof {
            lemma_index_of(files@, i as int);
            assert(needed_of(files@, fid) == files@[i as int].needed@);
            assert(deps@.to_set() == deps_of_spec(files@, fid));
            if has_entry(entries@, fid) {
                let k = choose|k: int| 0 <= k < i && files@[k].id == fid;
                assert(false);
            }
        }
        let e = DepEntry { id: files[i].id, deps };
        let ghost e_ghost = e;
        let ghost before = entries@;
        insert_entry(&mut entries, e);
        proof {
            assert forall|k: int|
                0 <= k < entries@.len() implies sorted_strict((#[trigger] entries@[k]).deps@)
                && (#[trigger] entries@[k]).deps@.to_set() == deps_of_spec(
                files@,
                entries@[k].id,
            ) by {
                if entries@[k] == e_ghost {
                    assert(entries@[k].id == fid);
                    assert(entries@[k].deps@ == e_ghost.deps@);
                } else {
                    assert(before.contains(entries@[k]));
                    let j = choose|j: int| 0 <= j < before.len() && before[j] == entries@[k];
                    assert(before[j].deps@.to_set() == deps_of_spec(files@, before[j].id));
                }
            }
            assert forall|k: int, b: u64|
                0 <= k < entries@.len() && #[trigger] entries@[k].deps@.contains(
                    b,
                ) implies has_file(files@, b) by {
                if entries@[k] == e_ghost {
                    assert(e_ghost.deps@.contains(b));
                    assert(entries@[k].deps@.to_set().contains(b));
                } else {
                    assert(before.contains(entries@[k]));
                    let j = choose|j: int| 0 <= j < before.len() && before[j] == entries@[k];
                    assert(before[j].deps@.contains(b));
                }
            }
            assert forall|x: u64|
                has_entry(entries@, x) <==> exists|k: int|
                    0 <= k < i + 1 && files@[k].id == x by {
                if has_entry(entries@, x) {
                    if has_entry(before, x) {
                        let k = choose|k: int| 0 <= k < i && files@[k].id == x;
                        assert(0 <= k < i + 1 && files@[k].id == x);
                    } else {
                        assert(x == fid);
                        assert(files@[i as int].id == x);
                    }
                }
                if exists|k: int| 0 <= k < i + 1 && files@[k].id == x {
                    let k = choose|k: int| 0 <= k < i + 1 && files@[k].id == x;
                    if k < i {
                        assert(has_entry(before, x));
                    }
                }
            }
        }
        i = i + 1;
    }
    proof {
        assert forall|x: u64| has_entry(entries@, x) <==> has_file(files@, x) by {}
    }
    DepMap { entries }
}

/// A file that needs nothing depends on nothing.
pub proof fn lemma_no_needs_no_deps(files: Seq<FileSyms>, id: u64)
    requires
        has_file(files, id),
        needed_of(files, id).len() == 0,
    ensures
        deps_of_spec(files, id) == Set::<u64>::empty(),
{
}

/// Two strictly sorted sequences holding the same set are the same
/// sequence.
pub proof fn lemma_sorted_same_set(a: Seq<u64>, b: Seq<u64>)
    requires
        sorted_strict(a),
        sorted_strict(b),
        a.to_set() == b.to_set(),
    ensures
        a == b,
    decreases a.len(),
{
    if a.len() == 0 {
        if b.len() > 0 {
            assert(b.contains(b[0]));
            assert(b.to_set().contains(b[0]));
            assert(a.to_set().contains(b[0]));
            assert(a.contains(b[0]));
        }
        assert(a =~= b);
    } else {
        assert(a.contains(a[0]));
        assert(a.to_set().contains(a[0]));
        assert(b.to_set().contains(a[0]));
        assert(b.contains(a[0]));
        assert(b.len() > 0);
        assert(b.contains(b[0]));
        assert(b.to_set().contains(b[0]));
        assert(a.to_set().contains(b[0]));
        assert(a.contains(b[0]));
        let ka = choose|k: int| 0 <= k < b.len() && b[k] == a[0];
        assert(ka > 0 ==> b[0] < b[ka]);
        let kb = choose|k: int| 0 <= k < a.len() && a[k] == b[0];
        assert(kb > 0 ==> a[0] < a[kb]);
        assert(a[0] == b[0]);
        let a2 = a.drop_first();
        let b2 = b.drop_first();
        assert(sorted_strict(a2)) by {
            assert(forall|i: int, j: int| 0 <= i < j < a2.len() ==> a2[i] == a[i + 1] && a2[j] == a[j + 1]);
        }
        assert(sorted_strict(b2)) by {
            assert(forall|i: int, j: int| 0 <= i < j < b2.len() ==> b2[i] == b[i + 1] && b2[j] == b[j + 1]);
        }
        assert forall|x: u64| a2.to_set().contains(x) implies b2.to_set().contains(x) by {
            assert(a2.contains(x));
            let k = choose|k: int| 0 <= k < a2.len() && a2[k] == x;
            assert(a[k + 1] == x);
            assert(a[0] < a[k + 1]);
            assert(a.contains(x));
            assert(b.to_set().contains(x));
            assert(b.contains(x));
            let k2 = choose|k2: int| 0 <= k2 < b.len() && b[k2] == x;
            assert(k2 != 0);
            assert(b2[k2 - 1] == x);
            assert(b2.contains(x));
        }
        assert forall|x: u64| b2.to_set().contains(x) implies a2.to_set().contains(x) by {
            assert(b2.contains(x));
            let k = choose|k: int| 0 <= k < b2.len() && b2[k] == x;
            assert(b[k + 1] == x);
            assert(b[0] < b[k + 1]);
            assert(b.contains(x));
            assert(a.to_set().contains(x));
            assert(a.contains(x));
            let k2 = choose|k2: int| 0 <= k2 < a.len() && a[k2] == x;
            assert(k2 != 0);
            assert(a2[k2 - 1] == x);
            assert(a2.contains(x));
        }
        assert(a2.to_set() =~= b2.to_set());
        lemma_sorted_same_set(a2, b2);
        assert(a.len() == b.len());
        assert forall|k: int| 0 <= k < a.len() implies a[k] == b[k] by {
            if k > 0 {
                assert(a2[k - 1] == b2[k - 1]);
            }
        }
        assert(a =~= b);
    }
}

/// Building the dependency map is deterministic: the canonical form of the
/// mapping for a given input set is unique, so building it twice yields the
/// same rows in the same order.
pub proof fn lemma_dependency_map_deterministic(m1: DepMap, m2: DepMap, files: Seq<FileSyms>)
    requires
        is_dependency_map_of(m1, files),
        is_dependency_map_of(m2, files),
    ensures
        m1.entries@.len() == m2.entries@.len(),
        forall|k: int|
            0 <= k < m1.entries@.len() ==> (#[trigger] m1.entries@[k]).id == m2.entries@[k].id
                && m1.entries@[k].deps@ == m2.entries@[k].deps@,
{
    let e1 = m1.entries@;
    let e2 = m2.entries@;
    let ids1 = Seq::new(e1.len(), |k: int| e1[k].id);
    let ids2 = Seq::new(e2.len(), |k: int| e2[k].id);
    assert(sorted_strict(ids1));
    assert(sorted_strict(ids2));
    assert forall|x: u64| ids1.to_set().contains(x) implies ids2.to_set().contains(x) by {
        assert(ids1.contains(x));
        let k = choose|k: int| 0 <= k < ids1.len() && ids1[k] == x;
        assert(e1[k].id == x);
        assert(has_entry(m1.entries@, x));
        assert(has_file(files, x));
        assert(has_entry(m2.entries@, x));
        let j = choose|j: int| 0 <= j < e2.len() && e2[j].id == x;
        assert(ids2[j] == x);
        assert(ids2.contains(x));
    }
    assert forall|x: u64| ids2.to_set().contains(x) implies ids1.to_set().contains(x) by {
        assert(ids2.contains(x));
        let k = choose|k: int| 0 <= k < ids2.len() && ids2[k] == x;
        assert(e2[k].id == x);
        assert(has_entry(m2.entries@, x));
        assert(has_file(files, x));
        assert(has_entry(m1.entries@, x));
        let j = choose|j: int| 0 <= j < e1.len() && e1[j].id == x;
        assert(ids1[j] == x);
        assert(ids1.contains(x));
    }
    assert(ids1.to_set() =~= ids2.to_set());
    lemma_sorted_same_set(ids1, ids2);
    assert(e1.len() == e2.len());
    assert forall|k: int|
        0 <= k < e1.len() implies (#[trigger] e1[k]).id == e2[k].id && e1[k].deps@
        == e2[k].deps@ by {
        assert(ids1[k] == ids2[k]);
        assert(e1[k].deps@.to_set() == deps_of_spec(files, e1[k].id));
        assert(e2[k].deps@.to_set() == deps_of_spec(files, e2[k].id));
        lemma_sorted_same_set(e1[k].deps@, e2[k].deps@);
    }
}

/// No two files define a symbol in common.
pub open spec fn disjoint_defined(files: Seq<FileSyms>) -> bool {
    forall|i: int, j: int, s: Seq<char>|
        0 <= i < files.len() && 0 <= j < files.len() && i != j && #[trigger] file_defines(
            files[i],
            s,
        ) ==> !(#[trigger] file_defines(files[j], s))
}

/// With distinct ids and pairwise-disjoint defined sets, a symbol has at
/// most one definer.
pub proof fn lemma_definers_singleton(files: Seq<FileSyms>, s: Seq<char>, g: u64, h: u64)
    requires
        unique_ids(files),
        disjoint_defined(files),
        definers(files, s).contains(g),
        definers(files, s).contains(h),
    ensures
        g == h,
{
    let i = choose|i: int| 0 <= i < files.len() && files[i].id == g && file_defines(files[i], s);
    let j = choose|j: int| 0 <= j < files.len() && files[j].id == h && file_defines(files[j], s);
    if i != j {
        assert(!file_defines(files[j], s));
    }
}

/// With pairwise-disjoint defined sets, resolution collects exactly the
/// definers of the needed symbols: each needed symbol with a sole definer
/// contributes exactly that file.
pub proof fn lemma_disjoint_resolve_exact(files: Seq<FileSyms>, needed: Seq<String>, acc: Set<u64>)
    requires
        unique_ids(files),
        disjoint_defined(files),
    ensures
        resolve(files, needed, acc) == acc.union(
            Set::new(
                |g: u64|
                    exists|k: int|
                        0 <= k < needed.len() && definers(files, #[trigger] needed[k]@).contains(g),
            ),
        ),
    decreases needed.len(),
{
    let whole = Set::new(
        |g: u64|
            exists|k: int|
                0 <= k < needed.len() && definers(files, #[trigger] needed[k]@).contains(g),
    );
    if needed.len() == 0 {
        assert(resolve(files, needed, acc) == acc);
        assert(acc.union(whole) =~= acc);
    } else {
        let ds = definers(files, needed[0]@);
        let rest = needed.drop_first();
        let rest_set = Set::new(
            |g: u64|
                exists|k: int|
                    0 <= k < rest.len() && definers(files, #[trigger] rest[k]@).contains(g),
        );
        let acc2 = if acc.disjoint(ds) {
            acc.union(ds)
        } else {
            acc
        };
        assert(acc2 =~= acc.union(ds)) by {
            if !acc.disjoint(ds) {
                let x = choose|x: u64| acc.contains(x) && ds.contains(x);
                assert forall|y: u64| ds.contains(y) implies acc.contains(y) by {
                    lemma_definers_singleton(files, needed[0]@, x, y);
                }
            }
        }
        lemma_disjoint_resolve_exact(files, rest, acc2);
        assert(resolve(files, needed, acc) == acc2.union(rest_set));
        assert(acc2.union(rest_set) =~= acc.union(whole)) by {
            assert forall|g: u64| whole.contains(g) implies ds.contains(g) || rest_set.contains(
                g,
            ) by {
                let k = choose|k: int|
                    0 <= k < needed.len() && definers(files, #[trigger] needed[k]@).contains(g);
                if k > 0 {
                    assert(rest[k - 1] == needed[k]);
                    assert(definers(files, rest[k - 1]@).contains(g));
                }
            }
            assert forall|g: u64| ds.contains(g) || rest_set.contains(g) implies whole.contains(
                g,
            ) by {
                if ds.contains(g) {
                    assert(definers(files, needed[0]@).contains(g));
                } else {
                    let k = choose|k: int|
                        0 <= k < rest.len() && definers(files, #[trigger] rest[k]@).contains(g);
                    assert(rest[k] == needed[k + 1]);
                    assert(definers(files, needed[k + 1]@).contains(g));
                }
            }
        }
    }
}

/// With pairwise-disjoint defined sets, a file's dependency set contains a
/// file exactly when that file is the sole definer of one of its needed
/// symbols.
pub proof fn lemma_disjoint_deps_exact(files: Seq<FileSyms>, id: u64)
    requires
        unique_ids(files),
        disjoint_defined(files),
        has_file(files, id),
    ensures
        forall|g: u64|
            #[trigger] deps_of_spec(files, id).contains(g) <==> exists|k: int|
                0 <= k < needed_of(files, id).len() && definers(
                    files,
                    #[trigger] needed_of(files, id)[k]@,
                ).contains(g),
{
    lemma_disjoint_resolve_exact(files, needed_of(files, id), Set::empty());
}

} // verus!
