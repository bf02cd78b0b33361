//! Bucketing of tile paths by grid-cell key, and the per-cell placement
//! plan: which directories to create, which links to make, and which renames
//! to issue. The binary executes the planned actions in order; everything
//! decided here is verified.

use vstd::prelude::*;
use crate::coordinate::{
    grid_key, parse_error_matches, parse_ok, parsed_lat, parsed_lon, Coordinate, PathError,
};
use crate::text::{basename, basename_of, file_stem, join, join_spec, stem_of};

verus! {

/// The grid-cell key a tile path buckets to, where the stem of its basename
/// parses as a coordinate.
pub open spec fn path_key(p: Seq<char>) -> Option<Seq<char>> {
    let stem = stem_of(basename_of(p));
    if parse_ok(stem) {
        Some(grid_key(parsed_lat(stem), parsed_lon(stem)))
    } else {
        None
    }
}

/// One grid cell's bucket: its key and the tile paths that map to it.
#[derive(Debug)]
pub struct CellBucket {
    pub key: String,
    pub files: Vec<String>,
}

impl CellBucket {
    /// Whether `p` is among this bucket's files.
    pub open spec fn has_path(&self, p: Seq<char>) -> bool {
        exists|j: int| 0 <= j < self.files@.len() && self.files@[j]@ == p
    }

    /// Well-formed: non-empty, duplicate-free, and every path buckets to
    /// exactly this cell's key.
    pub open spec fn wf(&self) -> bool {
        &&& self.files@.len() > 0
        &&& forall|a: int, b: int|
            0 <= a < self.files@.len() && 0 <= b < self.files@.len() && a != b
                ==> self.files@[a]@ != self.files@[b]@
        &&& forall|j: int|
            0 <= j < self.files@.len() ==> path_key(#[trigger] self.files@[j]@) == Some(self.key@)
    }
}

/// A mapping from grid-cell key to the set of tile paths that bucket to it.
/// Keys are unique; each bucket's files act as a set.
#[derive(Debug)]
pub struct BucketMap {
    pub entries: Vec<CellBucket>,
}

impl BucketMap {
    /// Well-formed: every bucket is, and no two buckets share a key.
    pub open spec fn wf(&self) -> bool {
        &&& forall|i: int| 0 <= i < self.entries@.len() ==> (#[trigger] self.entries@[i]).wf()
        &&& forall|a: int, b: int|
            0 <= a < self.entries@.len() && 0 <= b < self.entries@.len() && a != b
                ==> self.entries@[a].key@ != self.entries@[b].key@
    }

    /// Whether some bucket holds the path `p`.
    pub open spec fn contains_path(&self, p: Seq<char>) -> bool {
        exists|i: int| 0 <= i < self.entries@.len() && (#[trigger] self.entries@[i]).has_path(p)
    }

    /// Adds `path` to the bucket of `key`, creating the bucket if the key is
    /// new and leaving the map unchanged if the bucket already holds the
    /// path.
    fn insert(&mut self, key: String, path: String)
        requires
            old(self).wf(),
            path_key(path@) == Some(key@),
        ensures
            final(self).wf(),
            forall|p: Seq<char>|
                #[trigger] final(self).contains_path(p) <==> old(self).contains_path(p) || p
                    == path@,
    {
        let n = self.entries.len();
        let mut idx: usize = 0;
        let mut found = false;
        while idx < n && !found
            invariant
                *self == *old(self),
                idx <= n,
                n == self.entries@.len(),
                forall|j: int| 0 <= j < idx ==> self.entries@[j].key@ != key@,
                found ==> idx < n && self.entries@[idx as int].key@ == key@,
            decreases n - idx, (if found { 0int } else { 1int }),
        {
            if self.entries[idx].key == key {
                found = true;
            } else {
                idx = idx + 1;
            }
        }
        if found {
            let ghost prev = self.entries@;
            let mut b = self.entries.swap_remove(idx);
            let ghost b0 = b;
            if !contains_string(&b.files, &path) {
                b.files.push(path);
            }
            proof {
                assert(b.key == b0.key);
                assert forall|p: Seq<char>| b.has_path(p) <==> b0.has_path(p) || p == path@ by {
                    if b.has_path(p) {
                        let w = choose|w: int| 0 <= w < b.files@.len() && b.files@[w]@ == p;
                        if w < b0.files@.len() {
                            assert(b0.files@[w]@ == p);
                        }
                    }
                    if b0.has_path(p) {
                        let w = choose|w: int| 0 <= w < b0.files@.len() && b0.files@[w]@ == p;
                        assert(b.files@[w]@ == p);
                    }
                    if p == path@ {
                        if b0.has_path(p) {
                        } else {
                            assert(b.files@.last()@ == p);
                        }
                    }
                }
                assert(b.wf());
            }
            self.entries.push(b);
            proof {
                let cur = self.entries@;
                let ghost m = cur.len();
                assert(m == n);
                // Each surviving slot holds one of the old buckets.
                assert forall|i: int| 0 <= i < m - 1 implies cur[i] == prev[pre_index(
                    i,
                    idx as int,
                    n as int,
                )] && 0 <= pre_index(i, idx as int, n as int) < n && pre_index(
                    i,
                    idx as int,
                    n as int,
                ) != idx by {}
                assert(self.wf()) by {
                    assert forall|i: int| 0 <= i < m implies (#[trigger] cur[i]).wf() by {
                        if i < m - 1 {
                            assert(prev[pre_index(i, idx as int, n as int)].wf());
                        }
                    }
                    assert forall|a: int, b2: int|
                        0 <= a < m && 0 <= b2 < m && a != b2 implies cur[a].key@
                        != cur[b2].key@ by {
                        if a < m - 1 && b2 < m - 1 {
                            assert(prev[pre_index(a, idx as int, n as int)].key@ != prev[pre_index(
                                b2,
                                idx as int,
                                n as int,
                            )].key@);
                        } else if a < m - 1 {
                            assert(cur[b2].key@ == prev[idx as int].key@);
                            assert(prev[pre_index(a, idx as int, n as int)].key@ != prev[
                                idx as int].key@);
                        } else {
                            assert(cur[a].key@ == prev[idx as int].key@);
                            assert(prev[pre_index(b2, idx as int, n as int)].key@ != prev[
                                idx as int].key@);
                        }
                    }
                }
                assert forall|p: Seq<char>|
                    #[trigger] self.contains_path(p) <==> old(self).contains_path(p) || p
                        == path@ by {
                    if self.contains_path(p) {
                        let i = choose|i: int| 0 <= i < m && (#[trigger] cur[i]).has_path(p);
                        if i == m - 1 {
                            if b0.has_path(p) {
                                assert(prev[idx as int].has_path(p));
                                assert(old(self).contains_path(p));
                            }
                        } else {
                            assert(prev[pre_index(i, idx as int, n as int)].has_path(p));
                            assert(old(self).contains_path(p));
                        }
                    }
                    if old(self).contains_path(p) {
                        let i = choose|i: int| 0 <= i < n && (#[trigger] prev[i]).has_path(p);
                        if i == idx {
                            assert(cur[m - 1].has_path(p));
                        } else if i == n - 1 {
                            assert(cur[idx as int] == prev[i]);
                            assert(cur[idx as int].has_path(p));
                        } else {
                            assert(cur[i] == prev[i]);
                            assert(cur[i].has_path(p));
                        }
                    }
                    if p == path@ {
                        assert(cur[m - 1].has_path(p));
                        assert(self.contains_path(p));
                    }
                }
            }
        } else {
            let ghost prev = self.entries@;
            let mut files: Vec<String> = Vec::new();
            files.push(path);
            let b = CellBucket { key, files };
            self.entries.push(b);
            proof {
                let cur = self.entries@;
                assert(cur.last().files@[0]@ == path@);
                assert(cur.last().has_path(path@));
                assert forall|p: Seq<char>|
                    #[trigger] self.contains_path(p) <==> old(self).contains_path(p) || p
                        == path@ by {
                    if self.contains_path(p) {
                        let i = choose|i: int| 0 <= i < cur.len() && (#[trigger] cur[i]).has_path(
                            p,
                        );
                        if i < cur.len() - 1 {
                            assert(prev[i].has_path(p));
                            assert(old(self).contains_path(p));
                        } else {
                            assert(p == path@);
                        }
                    }
                    if old(self).contains_path(p) {
                        let i = choose|i: int| 0 <= i < prev.len() && (#[trigger] prev[i]).has_path(
                            p,
                        );
                        assert(cur[i] == prev[i]);
                        assert(cur[i].has_path(p));
                    }
                }
            }
        }
    }
}

/// Where the bucket at `i` of the rearranged map stood before `swap_remove`
/// at `idx` followed by a push: position `i` keeps its bucket unless it is
/// `idx`, which received the formerly last bucket.
spec fn pre_index(i: int, idx: int, n: int) -> int {
    if i == idx {
        n - 1
    } else {
        i
    }
}

/// Whether `x` occurs in `v`, compared by contents.
fn contains_string(v: &Vec<String>, x: &String) -> (b: bool)
    ensures
        b == exists|j: int| 0 <= j < v@.len() && v@[j]@ == x@,
{
    let mut i: usize = 0;
    while i < v.len()
        invariant
            i <= v@.len(),
            forall|j: int| 0 <= j < i ==> v@[j]@ != x@,
        decreases v@.len() - i,
    {
        if v[i] == *x {
            proof {
                assert(v@[i as int]@ == x@);
            }
            return true;
        }
        i = i + 1;
    }
    false
}

/// Groups the tile paths by grid-cell key. A path whose stem does not parse
/// aborts the whole run with that stem's parse error; the first offender in
/// input order decides.
pub fn bucket(paths: &Vec<String>) -> (r: Result<BucketMap, PathError>)
    ensures
        (forall|i: int| 0 <= i < paths@.len() ==> path_key(#[trigger] paths@[i]@) is Some) <==> r
            is Ok,
        r matches Ok(bm) ==> bm.wf() && (forall|p: Seq<char>|
            #[trigger] bm.contains_path(p) <==> paths.deep_view().contains(p)),
        r matches Err(e) ==> exists|i: int|
            {
                &&& 0 <= i < paths@.len()
                &&& path_key(#[trigger] paths@[i]@) is None
                &&& (forall|j: int| 0 <= j < i ==> path_key(#[trigger] paths@[j]@) is Some)
                &&& parse_error_matches(e, stem_of(basename_of(paths@[i]@)))
            },
{
    let mut bm = BucketMap { entries: Vec::new() };
    let mut i: usize = 0;
    while i < paths.len()
        invariant
            i <= paths@.len(),
            bm.wf(),
            forall|j: int| 0 <= j < i ==> path_key(#[trigger] paths@[j]@) is Some,
            forall|p: Seq<char>|
                #[trigger] bm.contains_path(p) <==> paths.deep_view().take(i as int).contains(p),
        decreases paths@.len() - i,
    {
        let path = &paths[i];
        let stem = file_stem(path.as_str());
        let coordinate = match Coordinate::parse(stem.as_str()) {
            Ok(c) => c,
            Err(e) => {
                proof {
                    assert(path_key(paths@[i as int]@) is None);
                }
                return Err(e);
            },
        };
        let key = coordinate.to_grid_position();
        proof {
            assert(path_key(path@) == Some(key@));
        }
        bm.insert(key, path.clone());
        proof {
            let prev = paths.deep_view().take(i as int);
            let cur = paths.deep_view().take(i + 1);
            assert(cur =~= prev.push(paths@[i as int]@));
            assert forall|p: Seq<char>|
                #[trigger] cur.contains(p) <==> prev.contains(p) || p == paths@[i as int]@ by {
                if cur.contains(p) {
                    let w = choose|w: int| 0 <= w < cur.len() && cur[w] == p;
                    if w < prev.len() {
                        assert(prev[w] == p);
                    }
                }
                if prev.contains(p) {
                    let w = choose|w: int| 0 <= w < prev.len() && prev[w] == p;
                    assert(cur[w] == p);
                }
                if p == paths@[i as int]@ {
                    assert(cur[cur.len() - 1] == p);
                }
            }
        }
        i += 1;
    }
    proof {
        assert(paths.deep_view().take(paths@.len() as int) =~= paths.deep_view());
        assert forall|j: int| 0 <= j < paths@.len() implies path_key(
            #[trigger] paths@[j]@,
        ) is Some by {}
    }
    Ok(bm)
}

/// One planned filesystem mutation, at the specification level.
#[verifier::ext_equal]
pub enum ActionV {
    CreateDir(Seq<char>),
    CreateLink { link: Seq<char>, target: Seq<char> },
    Rename { from: Seq<char>, to: Seq<char> },
}

/// One planned filesystem mutation: create a cell directory, create a
/// directory link, or move one tile into its cell directory.
#[derive(Debug, PartialEq)]
pub enum Action {
    CreateDir(String),
    CreateLink { link: String, target: String },
    Rename { from: String, to: String },
}

impl View for Action {
    type V = ActionV;

    open spec fn view(&self) -> ActionV {
        match self {
            Action::CreateDir(d) => ActionV::CreateDir(d@),
            Action::CreateLink { link, target } => ActionV::CreateLink {
                link: link@,
                target: target@,
            },
            Action::Rename { from, to } => ActionV::Rename { from: from@, to: to@ },
        }
    }
}

/// The views of a sequence of planned actions.
pub open spec fn actions_view(acts: Seq<Action>) -> Seq<ActionV> {
    acts.map_values(|a: Action| a@)
}

/// The renames that move each file into the cell directory, keeping its
/// basename, in the order given.
pub open spec fn rename_actions(cell_dir: Seq<char>, files: Seq<Seq<char>>) -> Seq<ActionV> {
    files.map_values(
        |f: Seq<char>| ActionV::Rename { from: f, to: join_spec(cell_dir, basename_of(f)) },
    )
}

/// The plan for one cell: create its directory under the source unless it
/// exists, create the directory link under the destination unless it exists
/// (the link targets the cell directory), then move every file in.
pub open spec fn place_cell_plan(
    src: Seq<char>,
    dst: Seq<char>,
    key: Seq<char>,
    files: Seq<Seq<char>>,
    cell_dir_exists: bool,
    link_exists: bool,
) -> Seq<ActionV> {
    let cell_dir = join_spec(src, key);
    (if !cell_dir_exists {
        seq![ActionV::CreateDir(cell_dir)]
    } else {
        Seq::<ActionV>::empty()
    }) + (if !link_exists {
        seq![ActionV::CreateLink { link: join_spec(dst, key), target: cell_dir }]
    } else {
        Seq::<ActionV>::empty()
    }) + rename_actions(cell_dir, files)
}

/// The whole run's plan: the cells' plans in bucket order, each fully
/// established (directory, then link) before its renames.
pub open spec fn place_plan(
    src: Seq<char>,
    dst: Seq<char>,
    buckets: Seq<CellBucket>,
    cell_dirs_exist: Seq<bool>,
    links_exist: Seq<bool>,
) -> Seq<ActionV>
    decreases buckets.len(),
{
    if buckets.len() == 0 {
        Seq::<ActionV>::empty()
    } else {
        place_plan(
            src,
            dst,
            buckets.drop_last(),
            cell_dirs_exist.drop_last(),
            links_exist.drop_last(),
        ) + place_cell_plan(
            src,
            dst,
            buckets.last().key@,
            buckets.last().files.deep_view(),
            cell_dirs_exist.last(),
            links_exist.last(),
        )
    }
}

/// Plans the placement of one cell, given whether its directory and its link
/// already exist.
pub fn place_cell(
    source_root: &str,
    destination_root: &str,
    key: &str,
    files: &Vec<String>,
    cell_dir_exists: bool,
    link_exists: bool,
) -> (acts: Vec<Action>)
    ensures
        actions_view(acts@) == place_cell_plan(
            source_root@,
            destination_root@,
            key@,
            files.deep_view(),
            cell_dir_exists,
            link_exists,
        ),
{
    let mut acts: Vec<Action> = Vec::new();
    let cell_dir = join(source_root, key);
    if !cell_dir_exists {
        acts.push(Action::CreateDir(cell_dir.clone()));
    }
    if !link_exists {
        let link = join(destination_root, key);
        acts.push(Action::CreateLink { link, target: cell_dir.clone() });
    }
    proof {
        assert(actions_view(acts@) =~= place_cell_plan(
            source_root@,
            destination_root@,
            key@,
            files.deep_view().take(0),
            cell_dir_exists,
            link_exists,
        ));
    }
    let mut i: usize = 0;
    while i < files.len()
        invariant
            i <= files@.len(),
            cell_dir@ == join_spec(source_root@, key@),
            actions_view(acts@) == place_cell_plan(
                source_root@,
                destination_root@,
                key@,
                files.deep_view().take(i as int),
                cell_dir_exists,
                link_exists,
            ),
        decreases files@.len() - i,
    {
        let from = files[i].clone();
        let base = basename(from.as_str());
        let to = join(cell_dir.as_str(), base.as_str());
        let ghost from_view = from@;
        let ghost to_view = to@;
        let ghost before = acts@;
        acts.push(Action::Rename { from, to });
        proof {
            let cd = join_spec(source_root@, key@);
            let fs0 = files.deep_view().take(i as int);
            let fs1 = files.deep_view().take(i + 1);
            let r_new = ActionV::Rename {
                from: files@[i as int]@,
                to: join_spec(cd, basename_of(files@[i as int]@)),
            };
            assert(fs1 =~= fs0.push(files@[i as int]@));
            assert(rename_actions(cd, fs1) =~= rename_actions(cd, fs0).push(r_new));
            assert(acts@.last()@ == r_new);
            assert(actions_view(acts@) =~= actions_view(before).push(r_new));
            assert(place_cell_plan(
                source_root@,
                destination_root@,
                key@,
                fs1,
                cell_dir_exists,
                link_exists,
            ) =~= place_cell_plan(
                source_root@,
                destination_root@,
                key@,
                fs0,
                cell_dir_exists,
                link_exists,
            ).push(r_new));
        }
        i += 1;
    }
    proof {
        assert(files.deep_view().take(files@.len() as int) =~= files.deep_view());
    }
    acts
}

/// Plans the whole run: every bucket's cell plan, in bucket order. The
/// caller reports which cell directories and links already exist, index for
/// index with the buckets.
pub fn place(
    source_root: &str,
    destination_root: &str,
    buckets: &BucketMap,
    cell_dirs_exist: &Vec<bool>,
    links_exist: &Vec<bool>,
) -> (acts: Vec<Action>)
    requires
        cell_dirs_exist@.len() == buckets.entries@.len(),
        links_exist@.len() == buckets.entries@.len(),
    ensures
        actions_view(acts@) == place_plan(
            source_root@,
            destination_root@,
            buckets.entries@,
            cell_dirs_exist@,
            links_exist@,
        ),
{
    let mut acts: Vec<Action> = Vec::new();
    let n = buckets.entries.len();
    let mut i: usize = 0;
    while i < n
        invariant
            i <= n,
            n == buckets.entries@.len(),
            cell_dirs_exist@.len() == n,
            links_exist@.len() == n,
            actions_view(acts@) == place_plan(
                source_root@,
                destination_root@,
                buckets.entries@.take(i as int),
                cell_dirs_exist@.take(i as int),
                links_exist@.take(i as int),
            ),
        decreases n - i,
    {
        let entry = &buckets.entries[i];
        let mut cell_acts = place_cell(
            source_root,
            destination_root,
            entry.key.as_str(),
            &entry.files,
            cell_dirs_exist[i],
            links_exist[i],
        );
        acts.append(&mut cell_acts);
        proof {
            assert(buckets.entries@.take(i + 1).drop_last() =~= buckets.entries@.take(i as int));
            assert(cell_dirs_exist@.take(i + 1).drop_last() =~= cell_dirs_exist@.take(i as int));
            assert(links_exist@.take(i + 1).drop_last() =~= links_exist@.take(i as int));
            assert(actions_view(acts@) =~= place_plan(
                source_root@,
                destination_root@,
                buckets.entries@.take(i + 1),
                cell_dirs_exist@.take(i + 1),
                links_exist@.take(i + 1),
            ));
        }
        i += 1;
    }
    proof {
        assert(buckets.entries@.take(n as int) =~= buckets.entries@);
        assert(cell_dirs_exist@.take(n as int) =~= cell_dirs_exist@);
        assert(links_exist@.take(n as int) =~= links_exist@);
    }
    acts
}

/// Bucket exclusivity: in a well-formed bucket map a path lies in at most
/// one bucket — its stem determines its key, and keys are unique.
pub proof fn law_bucket_exclusive(bm: &BucketMap, a: int, b: int, p: Seq<char>)
    requires
        bm.wf(),
        0 <= a < bm.entries@.len(),
        0 <= b < bm.entries@.len(),
        bm.entries@[a].has_path(p),
        bm.entries@[b].has_path(p),
    ensures
        a == b,
{
    let ja = choose|j: int| 0 <= j < bm.entries@[a].files@.len() && bm.entries@[a].files@[j]@ == p;
    let jb = choose|j: int| 0 <= j < bm.entries@[b].files@.len() && bm.entries@[b].files@[j]@ == p;
    assert(path_key(p) == Some(bm.entries@[a].key@));
    assert(path_key(p) == Some(bm.entries@[b].key@));
}

/// Idempotent placement: when every cell directory and every link already
/// exists the plan consists of renames only, and with no buckets at all it
/// is empty — re-running on a placed layout creates nothing anew.
pub proof fn law_place_idempotent(
    src: Seq<char>,
    dst: Seq<char>,
    buckets: Seq<CellBucket>,
    cell_dirs_exist: Seq<bool>,
    links_exist: Seq<bool>,
)
    requires
        cell_dirs_exist.len() == buckets.len(),
        links_exist.len() == buckets.len(),
        forall|i: int| 0 <= i < buckets.len() ==> cell_dirs_exist[i] && links_exist[i],
    ensures
        buckets.len() == 0 ==> place_plan(src, dst, buckets, cell_dirs_exist, links_exist)
            == Seq::<ActionV>::empty(),
        forall|k: int|
            0 <= k < place_plan(src, dst, buckets, cell_dirs_exist, links_exist).len()
                ==> (#[trigger] place_plan(src, dst, buckets, cell_dirs_exist, links_exist)[k])
                matches ActionV::Rename { .. },
    decreases buckets.len(),
{
    if buckets.len() > 0 {
        law_place_idempotent(
            src,
            dst,
            buckets.drop_last(),
            cell_dirs_exist.drop_last(),
            links_exist.drop_last(),
        );
        let head = place_plan(
            src,
            dst,
            buckets.drop_last(),
            cell_dirs_exist.drop_last(),
            links_exist.drop_last(),
        );
        let tail = place_cell_plan(
            src,
            dst,
            buckets.last().key@,
            buckets.last().files.deep_view(),
            cell_dirs_exist.last(),
            links_exist.last(),
        );
        assert(tail =~= rename_actions(
            join_spec(src, buckets.last().key@),
            buckets.last().files.deep_view(),
        ));
        assert forall|k: int|
            0 <= k < (head + tail).len() implies (#[trigger] (head + tail)[k]) matches ActionV::Rename {
            ..
        } by {
            if k >= head.len() {
                assert((head + tail)[k] == tail[k - head.len()]);
            }
        }
    }
}

/// Establishment order: within one cell's plan the directory creation and
/// the link creation both precede every rename — the cell is fully
/// established before any tile moves.
pub proof fn law_cell_plan_order(
    src: Seq<char>,
    dst: Seq<char>,
    key: Seq<char>,
    files: Seq<Seq<char>>,
    cell_dir_exists: bool,
    link_exists: bool,
)
    ensures
        forall|a: int, b: int|
            0 <= a < place_cell_plan(src, dst, key, files, cell_dir_exists, link_exists).len() && 0
                <= b < place_cell_plan(src, dst, key, files, cell_dir_exists, link_exists).len()
                && !((#[trigger] place_cell_plan(src, dst, key, files, cell_dir_exists, link_exists)[a])
                matches ActionV::Rename { .. }) && ((#[trigger] place_cell_plan(
                src,
                dst,
                key,
                files,
                cell_dir_exists,
                link_exists,
            )[b]) matches ActionV::Rename { .. }) ==> a < b,
{
    let plan = place_cell_plan(src, dst, key, files, cell_dir_exists, link_exists);
    let renames = rename_actions(join_spec(src, key), files);
    let creates = plan.len() - renames.len();
    assert forall|a: int, b: int|
        0 <= a < plan.len() && 0 <= b < plan.len() && !((#[trigger] plan[a]) matches ActionV::Rename { .. })
            && ((#[trigger] plan[b]) matches ActionV::Rename { .. }) implies a < b by {
        if a >= creates {
            assert(plan[a] == renames[a - creates]);
        }
        if b < creates {
            assert(plan[b] matches ActionV::Rename { .. });
        }
    }
}

/// Link and rename targets: every link a cell's plan creates stands at the
/// key's path under the destination and points at the key's cell directory
/// under the source; every rename moves a file of the cell into that
/// directory under its own basename; every directory created is the cell
/// directory itself.
pub proof fn law_cell_plan_targets(
    src: Seq<char>,
    dst: Seq<char>,
    key: Seq<char>,
    files: Seq<Seq<char>>,
    cell_dir_exists: bool,
    link_exists: bool,
)
    ensures
        forall|k: int|
            0 <= k < place_cell_plan(src, dst, key, files, cell_dir_exists, link_exists).len()
                ==> match (#[trigger] place_cell_plan(
                    src,
                    dst,
                    key,
                    files,
                    cell_dir_exists,
                    link_exists,
                )[k]) {
                    ActionV::CreateDir(d) => d == join_spec(src, key),
                    ActionV::CreateLink { link, target } => link == join_spec(dst, key) && target
                        == join_spec(src, key),
                    ActionV::Rename { from, to } => files.contains(from) && to == join_spec(
                        join_spec(src, key),
                        basename_of(from),
                    ),
                },
{
    let plan = place_cell_plan(src, dst, key, files, cell_dir_exists, link_exists);
    let renames = rename_actions(join_spec(src, key), files);
    let creates = plan.len() - renames.len();
    assert forall|k: int| 0 <= k < plan.len() implies match (#[trigger] plan[k]) {
        ActionV::CreateDir(d) => d == join_spec(src, key),
        ActionV::CreateLink { link, target } => link == join_spec(dst, key) && target == join_spec(
            src,
            key,
        ),
        ActionV::Rename { from, to } => files.contains(from) && to == join_spec(
            join_spec(src, key),
            basename_of(from),
        ),
    } by {
        if k >= creates {
            assert(plan[k] == renames[k - creates]);
            assert(files[k - creates] == (match renames[k - creates] {
                ActionV::Rename { from, .. } => from,
                _ => files[k - creates],
            }));
        }
    }
}

} // verus!
