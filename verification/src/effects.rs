//! The effect of executing a placement plan, stated against a small model of
//! the filesystem slice the planner touches: which paths are directories,
//! which are files, and where directory links point. The binary performs the
//! actions in plan order, so these laws describe what a run does on disk.

use vstd::prelude::*;
use crate::placement::{place_cell_plan, place_plan, rename_actions, ActionV, CellBucket};
use crate::text::{basename_of, join_spec};

verus! {

/// A model of the filesystem slice one run touches.
#[verifier::ext_equal]
pub struct FsModel {
    /// The paths that are directories.
    pub dirs: Set<Seq<char>>,
    /// The paths that are plain files.
    pub files: Set<Seq<char>>,
    /// The directory links, each mapped to its target.
    pub links: Map<Seq<char>, Seq<char>>,
}

impl FsModel {
    /// Whether anything exists at `p`.
    pub open spec fn occupied(&self, p: Seq<char>) -> bool {
        self.dirs.contains(p) || self.files.contains(p) || self.links.dom().contains(p)
    }
}

/// One action's effect: a created directory joins the directories, a created
/// link maps its path to its target, and a rename moves one file path.
pub open spec fn apply_action(fs: FsModel, a: ActionV) -> FsModel {
    match a {
        ActionV::CreateDir(d) => FsModel {
            dirs: fs.dirs.insert(d),
            files: fs.files,
            links: fs.links,
        },
        ActionV::CreateLink { link, target } => FsModel {
            dirs: fs.dirs,
            files: fs.files,
            links: fs.links.insert(link, target),
        },
        ActionV::Rename { from, to } => FsModel {
            dirs: fs.dirs,
            files: fs.files.remove(from).insert(to),
            links: fs.links,
        },
    }
}

/// A plan's effect: its actions applied in order.
pub open spec fn apply_plan(fs: FsModel, plan: Seq<ActionV>) -> FsModel
    decreases plan.len(),
{
    if plan.len() == 0 {
        fs
    } else {
        apply_action(apply_plan(fs, plan.drop_last()), plan.last())
    }
}

/// The path a tile of the cell with key `key` under `src` moves to: its
/// basename inside the cell directory.
pub open spec fn moved_target(src: Seq<char>, key: Seq<char>, f: Seq<char>) -> Seq<char> {
    join_spec(join_spec(src, key), basename_of(f))
}

/// Applying two plans in sequence equals applying their concatenation.
proof fn lemma_apply_plan_concat(fs: FsModel, a: Seq<ActionV>, b: Seq<ActionV>)
    ensures
        apply_plan(fs, a + b) == apply_plan(apply_plan(fs, a), b),
    decreases b.len(),
{
    if b.len() == 0 {
        assert(a + b =~= a);
    } else {
        lemma_apply_plan_concat(fs, a, b.drop_last());
        assert((a + b).drop_last() =~= a + b.drop_last());
        assert((a + b).last() == b.last());
    }
}

/// The renames of one cell move exactly its files: each file lands at its
/// target, leaves its original place, and no other file path changes —
/// provided no file stands where a target lies.
proof fn lemma_renames_effect(fs: FsModel, cell: Seq<char>, files: Seq<Seq<char>>)
    requires
        forall|i: int, j: int|
            #![trigger files[i], files[j]]
            0 <= i < files.len() && 0 <= j < files.len() ==> files[i] != join_spec(
                cell,
                basename_of(files[j]),
            ),
    ensures
        apply_plan(fs, rename_actions(cell, files)).dirs == fs.dirs,
        apply_plan(fs, rename_actions(cell, files)).links == fs.links,
        forall|i: int|
            0 <= i < files.len() ==> apply_plan(fs, rename_actions(cell, files)).files.contains(
                join_spec(cell, basename_of(#[trigger] files[i])),
            ),
        forall|i: int|
            0 <= i < files.len() ==> !apply_plan(fs, rename_actions(cell, files)).files.contains(
                #[trigger] files[i],
            ),
        forall|p: Seq<char>|
            fs.files.contains(p) && !files.contains(p) ==> #[trigger] apply_plan(
                fs,
                rename_actions(cell, files),
            ).files.contains(p),
        forall|p: Seq<char>|
            #[trigger] apply_plan(fs, rename_actions(cell, files)).files.contains(p)
                ==> fs.files.contains(p) || exists|j: int|
                0 <= j < files.len() && p == join_spec(cell, basename_of(#[trigger] files[j])),
    decreases files.len(),
{
    let plan = rename_actions(cell, files);
    if files.len() == 0 {
        assert(plan =~= Seq::<ActionV>::empty());
    } else {
        let prefix = files.drop_last();
        lemma_renames_effect(fs, cell, prefix);
        assert(plan.drop_last() =~= rename_actions(cell, prefix));
        let fs1 = apply_plan(fs, rename_actions(cell, prefix));
        let f_last = files.last();
        let t_last = join_spec(cell, basename_of(f_last));
        assert(plan.last() == ActionV::Rename { from: f_last, to: t_last });
        let fs2 = apply_plan(fs, plan);
        assert(fs2.files == fs1.files.remove(f_last).insert(t_last));
        // Each earlier target survives the final move; the last one is added.
        assert forall|i: int|
            0 <= i < files.len() implies fs2.files.contains(
            join_spec(cell, basename_of(#[trigger] files[i])),
        ) by {
            if i < files.len() - 1 {
                assert(prefix[i] == files[i]);
                assert(fs1.files.contains(join_spec(cell, basename_of(files[i]))));
                assert(join_spec(cell, basename_of(files[i])) != f_last);
            }
        }
        // Each file's original place stays empty.
        assert forall|i: int| 0 <= i < files.len() implies !fs2.files.contains(
            #[trigger] files[i],
        ) by {
            if i < files.len() - 1 {
                assert(prefix[i] == files[i]);
                assert(!fs1.files.contains(files[i]));
            }
            assert(files[i] != t_last);
        }
        // Unrelated files survive.
        assert forall|p: Seq<char>|
            fs.files.contains(p) && !files.contains(p) implies #[trigger] fs2.files.contains(
            p,
        ) by {
            assert(!prefix.contains(p)) by {
                if prefix.contains(p) {
                    let w = choose|w: int| 0 <= w < prefix.len() && prefix[w] == p;
                    assert(files[w] == p);
                }
            }
            assert(fs1.files.contains(p));
            assert(p != f_last) by {
                assert(files[files.len() - 1] == f_last);
            }
        }
        // Nothing appears but the targets.
        assert forall|p: Seq<char>| #[trigger] fs2.files.contains(p) implies fs.files.contains(p)
            || exists|j: int|
            0 <= j < files.len() && p == join_spec(cell, basename_of(#[trigger] files[j])) by {
            if p == t_last {
                assert(p == join_spec(cell, basename_of(files[files.len() - 1])));
            } else {
                assert(fs1.files.contains(p));
                if !fs.files.contains(p) {
                    let j = choose|j: int|
                        0 <= j < prefix.len() && p == join_spec(
                            cell,
                            basename_of(#[trigger] prefix[j]),
                        );
                    assert(p == join_spec(cell, basename_of(files[j])));
                }
            }
        }
    }
}

/// Placement effect: running one cell's plan on a model filesystem creates
/// the cell directory unless it existed, installs the link to the cell
/// directory unless its path was occupied (an occupied path — even a plain
/// directory — is left untouched), moves every bucket file to its basename
/// inside the cell directory, leaves no bucket file at its original place,
/// and changes no other file path. The precondition says only that no bucket
/// file already sits at a target path.
pub proof fn law_cell_plan_effect(
    fs: FsModel,
    src: Seq<char>,
    dst: Seq<char>,
    key: Seq<char>,
    files: Seq<Seq<char>>,
    cell_dir_exists: bool,
    link_exists: bool,
)
    requires
        forall|i: int, j: int|
            #![trigger files[i], files[j]]
            0 <= i < files.len() && 0 <= j < files.len() ==> files[i] != moved_target(
                src,
                key,
                files[j],
            ),
    ensures
        apply_plan(fs, place_cell_plan(src, dst, key, files, cell_dir_exists, link_exists)).dirs
            == (if cell_dir_exists {
            fs.dirs
        } else {
            fs.dirs.insert(join_spec(src, key))
        }),
        apply_plan(fs, place_cell_plan(src, dst, key, files, cell_dir_exists, link_exists)).links
            == (if link_exists {
            fs.links
        } else {
            fs.links.insert(join_spec(dst, key), join_spec(src, key))
        }),
        forall|i: int|
            0 <= i < files.len() ==> apply_plan(
                fs,
                place_cell_plan(src, dst, key, files, cell_dir_exists, link_exists),
            ).files.contains(moved_target(src, key, #[trigger] files[i])),
        forall|i: int|
            0 <= i < files.len() ==> !apply_plan(
                fs,
                place_cell_plan(src, dst, key, files, cell_dir_exists, link_exists),
            ).files.contains(#[trigger] files[i]),
        forall|p: Seq<char>|
            fs.files.contains(p) && !files.contains(p) ==> #[trigger] apply_plan(
                fs,
                place_cell_plan(src, dst, key, files, cell_dir_exists, link_exists),
            ).files.contains(p),
        forall|p: Seq<char>|
            #[trigger] apply_plan(
                fs,
                place_cell_plan(src, dst, key, files, cell_dir_exists, link_exists),
            ).files.contains(p) ==> fs.files.contains(p) || exists|j: int|
                0 <= j < files.len() && p == moved_target(src, key, #[trigger] files[j]),
{
    let cell = join_spec(src, key);
    let dir_part: Seq<ActionV> = if !cell_dir_exists {
        seq![ActionV::CreateDir(cell)]
    } else {
        Seq::<ActionV>::empty()
    };
    let link_part: Seq<ActionV> = if !link_exists {
        seq![ActionV::CreateLink { link: join_spec(dst, key), target: cell }]
    } else {
        Seq::<ActionV>::empty()
    };
    let creates = dir_part + link_part;
    let renames = rename_actions(cell, files);
    assert(place_cell_plan(src, dst, key, files, cell_dir_exists, link_exists) == creates
        + renames);
    lemma_apply_plan_concat(fs, creates, renames);
    lemma_apply_plan_concat(fs, dir_part, link_part);
    assert(creates =~= dir_part + link_part);
    let fs_dir = apply_plan(fs, dir_part);
    if !cell_dir_exists {
        assert(dir_part.drop_last() =~= Seq::<ActionV>::empty());
        assert(apply_plan(fs, Seq::<ActionV>::empty()) == fs);
        assert(dir_part.last() == ActionV::CreateDir(cell));
        assert(fs_dir == apply_action(apply_plan(fs, dir_part.drop_last()), dir_part.last()));
        assert(fs_dir == apply_action(fs, ActionV::CreateDir(cell)));
    }
    let fs_created = apply_plan(fs_dir, link_part);
    if !link_exists {
        assert(link_part.drop_last() =~= Seq::<ActionV>::empty());
        assert(apply_plan(fs_dir, Seq::<ActionV>::empty()) == fs_dir);
        assert(link_part.last() == ActionV::CreateLink { link: join_spec(dst, key), target: cell });
        assert(fs_created == apply_action(
            apply_plan(fs_dir, link_part.drop_last()),
            link_part.last(),
        ));
        assert(fs_created == apply_action(
            fs_dir,
            ActionV::CreateLink { link: join_spec(dst, key), target: cell },
        ));
    }
    assert(fs_created.files == fs.files);
    lemma_renames_effect(fs_created, cell, files);
}

/// Joining under one base is injective in the name.
proof fn lemma_join_right_injective(base: Seq<char>, k1: Seq<char>, k2: Seq<char>)
    requires
        join_spec(base, k1) == join_spec(base, k2),
    ensures
        k1 == k2,
{
    if base.len() == 0 {
    } else if base.last() == '/' {
        assert(base + k1 == base + k2);
        assert((base + k1).len() == base.len() + k1.len());
        assert((base + k2).len() == base.len() + k2.len());
        assert(k1.len() == k2.len());
        assert forall|i: int| 0 <= i < k1.len() implies k1[i] == k2[i] by {
            assert((base + k1)[base.len() + i] == k1[i]);
            assert((base + k2)[base.len() + i] == k2[i]);
        }
        assert(k1 =~= k2);
    } else {
        assert(base + seq!['/'] + k1 == base + seq!['/'] + k2);
        assert((base + seq!['/'] + k1).len() == base.len() + 1 + k1.len());
        assert((base + seq!['/'] + k2).len() == base.len() + 1 + k2.len());
        assert(k1.len() == k2.len());
        assert forall|i: int| 0 <= i < k1.len() implies k1[i] == k2[i] by {
            assert((base + seq!['/'] + k1)[base.len() + 1 + i] == k1[i]);
            assert((base + seq!['/'] + k2)[base.len() + 1 + i] == k2[i]);
        }
        assert(k1 =~= k2);
    }
}

/// Whether `p` is a tile path of some bucket.
pub open spec fn any_bucket_file(buckets: Seq<CellBucket>, p: Seq<char>) -> bool {
    exists|i: int, j: int|
        0 <= i < buckets.len() && 0 <= j < buckets[i].files@.len() && buckets[i].files@[j]@ == p
}

/// Whether `p` is the target path of some bucket's tile.
pub open spec fn any_bucket_target(src: Seq<char>, buckets: Seq<CellBucket>, p: Seq<char>) -> bool {
    exists|i: int, j: int|
        0 <= i < buckets.len() && 0 <= j < buckets[i].files@.len() && p == moved_target(
            src,
            buckets[i].key@,
            buckets[i].files@[j]@,
        )
}

/// Whole-run placement effect: executing the full plan on a model filesystem
/// creates exactly the missing cell directories, installs exactly the
/// missing links — each pointing at its cell directory — while links that
/// were reported present keep their old targets, moves every bucketed tile
/// to its basename inside its cell directory, leaves no tile at its original
/// place, and changes no unrelated file path. The preconditions ask for
/// distinct keys (as the bucket map guarantees) and that no tile path
/// already lies where a target lies.
pub proof fn law_place_plan_effect(
    fs: FsModel,
    src: Seq<char>,
    dst: Seq<char>,
    buckets: Seq<CellBucket>,
    cell_dirs_exist: Seq<bool>,
    links_exist: Seq<bool>,
)
    requires
        cell_dirs_exist.len() == buckets.len(),
        links_exist.len() == buckets.len(),
        forall|a: int, b: int|
            #![trigger buckets[a], buckets[b]]
            0 <= a < buckets.len() && 0 <= b < buckets.len() && a != b ==> buckets[a].key@
                != buckets[b].key@,
        forall|p: Seq<char>| #[trigger] any_bucket_file(buckets, p) ==> !any_bucket_target(
            src,
            buckets,
            p,
        ),
    ensures
        forall|d: Seq<char>|
            #[trigger] apply_plan(
                fs,
                place_plan(src, dst, buckets, cell_dirs_exist, links_exist),
            ).dirs.contains(d) <==> fs.dirs.contains(d) || exists|i: int|
                0 <= i < buckets.len() && !cell_dirs_exist[i] && d == join_spec(
                    src,
                    (#[trigger] buckets[i]).key@,
                ),
        forall|l: Seq<char>|
            #[trigger] apply_plan(
                fs,
                place_plan(src, dst, buckets, cell_dirs_exist, links_exist),
            ).links.dom().contains(l) <==> fs.links.dom().contains(l) || exists|i: int|
                0 <= i < buckets.len() && !links_exist[i] && l == join_spec(
                    dst,
                    (#[trigger] buckets[i]).key@,
                ),
        forall|i: int|
            0 <= i < buckets.len() && !links_exist[i] ==> apply_plan(
                fs,
                place_plan(src, dst, buckets, cell_dirs_exist, links_exist),
            ).links[join_spec(dst, (#[trigger] buckets[i]).key@)] == join_spec(
                src,
                buckets[i].key@,
            ),
        forall|l: Seq<char>|
            #[trigger] fs.links.dom().contains(l) && !(exists|i: int|
                0 <= i < buckets.len() && !links_exist[i] && l == join_spec(
                    dst,
                    (#[trigger] buckets[i]).key@,
                )) ==> apply_plan(
                fs,
                place_plan(src, dst, buckets, cell_dirs_exist, links_exist),
            ).links[l] == fs.links[l],
        forall|i: int, j: int|
            #![trigger buckets[i].files@[j]]
            0 <= i < buckets.len() && 0 <= j < buckets[i].files@.len() ==> apply_plan(
                fs,
                place_plan(src, dst, buckets, cell_dirs_exist, links_exist),
            ).files.contains(moved_target(src, buckets[i].key@, buckets[i].files@[j]@)),
        forall|i: int, j: int|
            #![trigger buckets[i].files@[j]]
            0 <= i < buckets.len() && 0 <= j < buckets[i].files@.len() ==> !apply_plan(
                fs,
                place_plan(src, dst, buckets, cell_dirs_exist, links_exist),
            ).files.contains(buckets[i].files@[j]@),
        forall|p: Seq<char>|
            fs.files.contains(p) && !any_bucket_file(buckets, p) ==> #[trigger] apply_plan(
                fs,
                place_plan(src, dst, buckets, cell_dirs_exist, links_exist),
            ).files.contains(p),
        forall|p: Seq<char>|
            #[trigger] apply_plan(
                fs,
                place_plan(src, dst, buckets, cell_dirs_exist, links_exist),
            ).files.contains(p) ==> fs.files.contains(p) || any_bucket_target(src, buckets, p),
    decreases buckets.len(),
{
    let plan = place_plan(src, dst, buckets, cell_dirs_exist, links_exist);
    let n = buckets.len() as int;
    if n == 0 {
        assert(apply_plan(fs, plan) == fs);
    } else {
        let prefix = buckets.drop_last();
        let cep = cell_dirs_exist.drop_last();
        let lep = links_exist.drop_last();
        assert forall|p: Seq<char>| #[trigger] any_bucket_file(prefix, p) implies !any_bucket_target(
            src,
            prefix,
            p,
        ) by {
            let (i, j) = choose|i: int, j: int|
                0 <= i < prefix.len() && 0 <= j < prefix[i].files@.len() && prefix[i].files@[j]@
                    == p;
            assert(buckets[i].files@[j]@ == p);
            assert(any_bucket_file(buckets, p));
            if any_bucket_target(src, prefix, p) {
                let (a, b) = choose|a: int, b: int|
                    0 <= a < prefix.len() && 0 <= b < prefix[a].files@.len() && p == moved_target(
                        src,
                        prefix[a].key@,
                        prefix[a].files@[b]@,
                    );
                assert(p == moved_target(src, buckets[a].key@, buckets[a].files@[b]@));
                assert(any_bucket_target(src, buckets, p));
            }
        }
        law_place_plan_effect(fs, src, dst, prefix, cep, lep);
        let fs1 = apply_plan(fs, place_plan(src, dst, prefix, cep, lep));
        let last = buckets.last();
        let lfiles = last.files.deep_view();
        let ce_last = cell_dirs_exist.last();
        let le_last = links_exist.last();
        assert forall|w: int| 0 <= w < lfiles.len() implies any_bucket_file(
            buckets,
            #[trigger] lfiles[w],
        ) by {
            assert(buckets[n - 1].files@[w]@ == lfiles[w]);
        }
        assert forall|i: int, j: int|
            #![trigger lfiles[i], lfiles[j]]
            0 <= i < lfiles.len() && 0 <= j < lfiles.len() implies lfiles[i] != moved_target(
            src,
            last.key@,
            lfiles[j],
        ) by {
            assert(any_bucket_file(buckets, lfiles[i]));
            if lfiles[i] == moved_target(src, last.key@, lfiles[j]) {
                assert(buckets[n - 1].files@[j]@ == lfiles[j]);
                assert(any_bucket_target(src, buckets, lfiles[i]));
            }
        }
        law_cell_plan_effect(fs1, src, dst, last.key@, lfiles, ce_last, le_last);
        let cell_plan = place_cell_plan(src, dst, last.key@, lfiles, ce_last, le_last);
        assert(plan == place_plan(src, dst, prefix, cep, lep) + cell_plan);
        lemma_apply_plan_concat(fs, place_plan(src, dst, prefix, cep, lep), cell_plan);
        let fs2 = apply_plan(fs, plan);
        assert(fs2 == apply_plan(fs1, cell_plan));
        let cell_last = join_spec(src, last.key@);
        let link_last = join_spec(dst, last.key@);

        // Directories.
        assert forall|d: Seq<char>| #[trigger] fs2.dirs.contains(d) <==> fs.dirs.contains(d)
            || exists|i: int|
            0 <= i < buckets.len() && !cell_dirs_exist[i] && d == join_spec(
                src,
                (#[trigger] buckets[i]).key@,
            ) by {
            if fs2.dirs.contains(d) {
                if !ce_last && d == cell_last {
                    assert(!cell_dirs_exist[n - 1] && d == join_spec(src, buckets[n - 1].key@));
                } else {
                    assert(fs1.dirs.contains(d));
                    if !fs.dirs.contains(d) {
                        let i = choose|i: int|
                            0 <= i < prefix.len() && !cep[i] && d == join_spec(
                                src,
                                (#[trigger] prefix[i]).key@,
                            );
                        assert(!cell_dirs_exist[i] && d == join_spec(src, buckets[i].key@));
                    }
                }
            }
            if fs.dirs.contains(d) {
                assert(fs1.dirs.contains(d));
                assert(fs2.dirs.contains(d));
            }
            if exists|i: int|
                0 <= i < buckets.len() && !cell_dirs_exist[i] && d == join_spec(
                    src,
                    (#[trigger] buckets[i]).key@,
                ) {
                let i = choose|i: int|
                    0 <= i < buckets.len() && !cell_dirs_exist[i] && d == join_spec(
                        src,
                        (#[trigger] buckets[i]).key@,
                    );
                if i < n - 1 {
                    assert(!cep[i] && d == join_spec(src, prefix[i].key@));
                    assert(fs1.dirs.contains(d));
                    assert(fs2.dirs.contains(d));
                } else {
                    assert(fs2.dirs.contains(d));
                }
            }
        }

        // Link domain.
        assert forall|l: Seq<char>| #[trigger] fs2.links.dom().contains(l) <==> fs.links.dom().contains(
            l,
        ) || exists|i: int|
            0 <= i < buckets.len() && !links_exist[i] && l == join_spec(
                dst,
                (#[trigger] buckets[i]).key@,
            ) by {
            if fs2.links.dom().contains(l) {
                if !le_last && l == link_last {
                    assert(!links_exist[n - 1] && l == join_spec(dst, buckets[n - 1].key@));
                } else {
                    assert(fs1.links.dom().contains(l));
                    if !fs.links.dom().contains(l) {
                        let i = choose|i: int|
                            0 <= i < prefix.len() && !lep[i] && l == join_spec(
                                dst,
                                (#[trigger] prefix[i]).key@,
                            );
                        assert(!links_exist[i] && l == join_spec(dst, buckets[i].key@));
                    }
                }
            }
            if fs.links.dom().contains(l) {
                assert(fs1.links.dom().contains(l));
                assert(fs2.links.dom().contains(l));
            }
            if exists|i: int|
                0 <= i < buckets.len() && !links_exist[i] && l == join_spec(
                    dst,
                    (#[trigger] buckets[i]).key@,
                ) {
                let i = choose|i: int|
                    0 <= i < buckets.len() && !links_exist[i] && l == join_spec(
                        dst,
                        (#[trigger] buckets[i]).key@,
                    );
                if i < n - 1 {
                    assert(!lep[i] && l == join_spec(dst, prefix[i].key@));
                    assert(fs1.links.dom().contains(l));
                    assert(fs2.links.dom().contains(l));
                } else {
                    assert(fs2.links.dom().contains(l));
                }
            }
        }

        // Created links point at their cell directories.
        assert forall|i: int| 0 <= i < buckets.len() && !links_exist[i] implies fs2.links[join_spec(
            dst,
            (#[trigger] buckets[i]).key@,
        )] == join_spec(src, buckets[i].key@) by {
            let l = join_spec(dst, buckets[i].key@);
            if i == n - 1 {
                assert(fs2.links[l] == cell_last);
            } else {
                assert(!lep[i] && l == join_spec(dst, prefix[i].key@));
                assert(fs1.links[l] == join_spec(src, buckets[i].key@));
                if !le_last {
                    if l == link_last {
                        lemma_join_right_injective(dst, buckets[i].key@, last.key@);
                        assert(buckets[i].key@ == buckets[n - 1].key@);
                        assert(false);
                    }
                }
            }
        }

        // Links that were reported present keep their targets.
        assert forall|l: Seq<char>|
            #[trigger] fs.links.dom().contains(l) && !(exists|i: int|
                0 <= i < buckets.len() && !links_exist[i] && l == join_spec(
                    dst,
                    (#[trigger] buckets[i]).key@,
                )) implies fs2.links[l] == fs.links[l] by {
            assert forall|i: int|
                0 <= i < prefix.len() && !lep[i] implies l != join_spec(
                dst,
                (#[trigger] prefix[i]).key@,
            ) by {
                if l == join_spec(dst, prefix[i].key@) {
                    assert(0 <= i < buckets.len() && !links_exist[i] && l == join_spec(
                        dst,
                        buckets[i].key@,
                    ));
                }
            }
            assert(fs1.links[l] == fs.links[l]);
            if !le_last {
                if l == link_last {
                    assert(0 <= n - 1 < buckets.len() && !links_exist[n - 1] && l == join_spec(
                        dst,
                        buckets[n - 1].key@,
                    ));
                }
                assert(l != link_last);
            }
        }

        // Every tile stands at its target.
        assert forall|i: int, j: int|
            #![trigger buckets[i].files@[j]]
            0 <= i < buckets.len() && 0 <= j < buckets[i].files@.len() implies fs2.files.contains(
            moved_target(src, buckets[i].key@, buckets[i].files@[j]@),
        ) by {
            let t = moved_target(src, buckets[i].key@, buckets[i].files@[j]@);
            if i == n - 1 {
                assert(lfiles[j] == buckets[i].files@[j]@);
                assert(fs2.files.contains(join_spec(cell_last, basename_of(lfiles[j]))));
            } else {
                assert(prefix[i].files@[j]@ == buckets[i].files@[j]@);
                assert(fs1.files.contains(t));
                assert(any_bucket_target(src, buckets, t));
                assert(!lfiles.contains(t)) by {
                    if lfiles.contains(t) {
                        let w = choose|w: int| 0 <= w < lfiles.len() && lfiles[w] == t;
                        assert(any_bucket_file(buckets, t));
                    }
                }
                assert(fs2.files.contains(t));
            }
        }

        // No tile remains at its origin.
        assert forall|i: int, j: int|
            #![trigger buckets[i].files@[j]]
            0 <= i < buckets.len() && 0 <= j < buckets[i].files@.len() implies !fs2.files.contains(
            buckets[i].files@[j]@,
        ) by {
            let f = buckets[i].files@[j]@;
            assert(any_bucket_file(buckets, f));
            if i == n - 1 {
                assert(lfiles[j] == f);
                assert(!fs2.files.contains(f));
            } else {
                assert(prefix[i].files@[j]@ == f);
                assert(!fs1.files.contains(f));
                if fs2.files.contains(f) {
                    let w = choose|w: int|
                        0 <= w < lfiles.len() && f == join_spec(
                            cell_last,
                            basename_of(#[trigger] lfiles[w]),
                        );
                    assert(buckets[n - 1].files@[w]@ == lfiles[w]);
                    assert(f == moved_target(src, buckets[n - 1].key@, buckets[n - 1].files@[w]@));
                    assert(any_bucket_target(src, buckets, f));
                }
            }
        }

        // Unrelated files survive.
        assert forall|p: Seq<char>|
            fs.files.contains(p) && !any_bucket_file(buckets, p) implies #[trigger] fs2.files.contains(
            p,
        ) by {
            assert(!any_bucket_file(prefix, p)) by {
                if any_bucket_file(prefix, p) {
                    let (i, j) = choose|i: int, j: int|
                        0 <= i < prefix.len() && 0 <= j < prefix[i].files@.len()
                            && prefix[i].files@[j]@ == p;
                    assert(buckets[i].files@[j]@ == p);
                }
            }
            assert(fs1.files.contains(p));
            assert(!lfiles.contains(p)) by {
                if lfiles.contains(p) {
                    let w = choose|w: int| 0 <= w < lfiles.len() && lfiles[w] == p;
                    assert(any_bucket_file(buckets, p));
                }
            }
        }

        // Nothing appears but the targets.
        assert forall|p: Seq<char>| #[trigger] fs2.files.contains(p) implies fs.files.contains(p)
            || any_bucket_target(src, buckets, p) by {
            if fs1.files.contains(p) {
                if !fs.files.contains(p) {
                    assert(any_bucket_target(src, prefix, p));
                    let (a, b) = choose|a: int, b: int|
                        0 <= a < prefix.len() && 0 <= b < prefix[a].files@.len() && p
                            == moved_target(src, prefix[a].key@, prefix[a].files@[b]@);
                    assert(p == moved_target(src, buckets[a].key@, buckets[a].files@[b]@));
                    assert(any_bucket_target(src, buckets, p));
                }
            } else {
                let w = choose|w: int|
                    0 <= w < lfiles.len() && p == join_spec(
                        cell_last,
                        basename_of(#[trigger] lfiles[w]),
                    );
                assert(buckets[n - 1].files@[w]@ == lfiles[w]);
                assert(p == moved_target(src, buckets[n - 1].key@, buckets[n - 1].files@[w]@));
                assert(any_bucket_target(src, buckets, p));
            }
        }
    }
}

} // verus!
