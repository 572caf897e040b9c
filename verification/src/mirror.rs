//! The mirror engine: from a remote directory tree to local actions.
//!
//! Mirroring walks the remote tree and, entry by entry and in listing
//! order, creates the corresponding local directory or transfers the
//! file's bytes. The walk is captured by a plan: the exact sequence of
//! local filesystem actions a run performs. Applying the plan under a
//! run-wide conflict decision gives the resulting local tree, so the
//! engine's behaviour, including idempotence of a repeated run, can be
//! stated and proved.

use vstd::prelude::*;
use crate::conflict::ConflictDecision;
use crate::conflict::ConflictResolver;
use crate::conflict::Resolution;
use crate::fsmodel::FsView;
use crate::fsmodel::LocalFs;
use crate::paths::join;
use crate::paths::join_spec;
use crate::paths::SEPARATOR;

verus! {

/// Resolved paths for one file transfer: where the bytes come from and
/// where they go. The local path extends the local root exactly as the
/// remote path extends the remote root.
pub struct TransferTask {
    pub remote_path: Vec<u8>,
    pub local_path: Vec<u8>,
}

/// A remote directory tree as the listings report it: a file with its
/// content, or a directory with its entries in listing order.
pub enum Tree {
    File { name: Vec<u8>, content: Vec<u8> },
    Dir { name: Vec<u8>, children: Vec<Tree> },
}

/// One local filesystem action of a mirroring run.
pub enum Action {
    /// Ensure the local directory exists (idempotent).
    MakeDir { local: Vec<u8> },
    /// Transfer one remote file's bytes to its local path.
    Transfer { task: TransferTask, content: Vec<u8> },
}

/// Mathematical form of an action.
pub enum ActionV {
    MakeDir { local: Seq<u8> },
    Transfer { remote: Seq<u8>, local: Seq<u8>, content: Seq<u8> },
}

impl View for Action {
    type V = ActionV;

    open spec fn view(&self) -> ActionV {
        match self {
            Action::MakeDir { local } => ActionV::MakeDir { local: local@ },
            Action::Transfer { task, content } => ActionV::Transfer {
                remote: task.remote_path@,
                local: task.local_path@,
                content: content@,
            },
        }
    }
}

/// The views of a sequence of actions.
pub open spec fn actions_view(s: Seq<Action>) -> Seq<ActionV> {
    s.map_values(|a: Action| a@)
}

/// The actions that mirroring one entry of `remote_dir` into `local_dir`
/// performs: a file becomes one transfer; a directory becomes a
/// directory creation followed by the actions for its own entries.
pub open spec fn spec_plan_tree(t: Tree, remote_dir: Seq<u8>, local_dir: Seq<u8>) -> Seq<ActionV>
    decreases t,
{
    match t {
        Tree::File { name, content } => seq![
            ActionV::Transfer {
                remote: join_spec(remote_dir, name@),
                local: join_spec(local_dir, name@),
                content: content@,
            },
        ],
        Tree::Dir { name, children } => seq![
            ActionV::MakeDir { local: join_spec(local_dir, name@) },
        ] + spec_plan_children(
            children@,
            join_spec(remote_dir, name@),
            join_spec(local_dir, name@),
        ),
    }
}

/// The actions for a directory's entries, in listing order.
pub open spec fn spec_plan_children(
    ts: Seq<Tree>,
    remote_dir: Seq<u8>,
    local_dir: Seq<u8>,
) -> Seq<ActionV>
    decreases ts,
{
    if ts.len() == 0 {
        Seq::empty()
    } else {
        spec_plan_tree(ts.first(), remote_dir, local_dir) + spec_plan_children(
            ts.drop_first(),
            remote_dir,
            local_dir,
        )
    }
}

/// Plans one entry of a remote directory. The actions come back in the
/// order the run performs them.
#[verifier::loop_isolation(false)]
pub fn plan_tree(t: &Tree, remote_dir: &Vec<u8>, local_dir: &Vec<u8>) -> (r: Vec<Action>)
    ensures
        actions_view(r@) == spec_plan_tree(*t, remote_dir@, local_dir@),
    decreases *t,
{
    match t {
        Tree::File { name, content } => {
            let task = TransferTask {
                remote_path: join(remote_dir, name),
                local_path: join(local_dir, name),
            };
            let content = crate::paths::copy_bytes(content);
            let mut r: Vec<Action> = Vec::new();
            r.push(Action::Transfer { task, content });
            proof {
                assert(actions_view(r@) =~= spec_plan_tree(*t, remote_dir@, local_dir@));
            }
            r
        },
        Tree::Dir { name, children } => {
            let sub_remote = join(remote_dir, name);
            let sub_local = join(local_dir, name);
            let mut r: Vec<Action> = Vec::new();
            r.push(Action::MakeDir { local: crate::paths::copy_bytes(&sub_local) });
            let ghost head = actions_view(r@);
            proof {
                assert(head =~= seq![
                    ActionV::MakeDir { local: join_spec(local_dir@, name@) },
                ]);
            }
            let mut i: usize = 0;
            while i < children.len()
                invariant
                    i <= children@.len(),
                    sub_remote@ == join_spec(remote_dir@, name@),
                    sub_local@ == join_spec(local_dir@, name@),
                    actions_view(r@) == head + spec_plan_children(
                        children@.take(i as int),
                        sub_remote@,
                        sub_local@,
                    ),
                decreases children@.len() - i,
            {
                let mut sub = plan_tree(&children[i], &sub_remote, &sub_local);
                let ghost r_before = r@;
                let ghost sub_v = sub@;
                r.append(&mut sub);
                proof {
                    assert(actions_view(r@) =~= actions_view(r_before) + actions_view(sub_v));
                    lemma_plan_children_snoc(
                        children@.take(i as int),
                        children@[i as int],
                        sub_remote@,
                        sub_local@,
                    );
                    assert(children@.take(i as int).push(children@[i as int]) =~= children@.take(
                        i + 1,
                    ));
                }
                i = i + 1;
            }
            proof {
                assert(children@.take(children@.len() as int) =~= children@);
                assert(actions_view(r@) =~= spec_plan_tree(*t, remote_dir@, local_dir@));
            }
            r
        },
    }
}

/// Plans the mirroring of a whole remote directory: its entries, in
/// listing order, into the local root.
pub fn plan_mirror(entries: &Vec<Tree>, remote_root: &Vec<u8>, local_root: &Vec<u8>) -> (r: Vec<
    Action,
>)
    ensures
        actions_view(r@) == spec_plan_children(entries@, remote_root@, local_root@),
{
    let mut r: Vec<Action> = Vec::new();
    proof {
        assert(actions_view(r@) =~= spec_plan_children(
            entries@.take(0),
            remote_root@,
            local_root@,
        ));
    }
    let mut i: usize = 0;
    while i < entries.len()
        invariant
            i <= entries@.len(),
            actions_view(r@) == spec_plan_children(
                entries@.take(i as int),
                remote_root@,
                local_root@,
            ),
        decreases entries@.len() - i,
    {
        let mut sub = plan_tree(&entries[i], remote_root, local_root);
        let ghost r_before = r@;
        let ghost sub_v = sub@;
        r.append(&mut sub);
        proof {
            assert(actions_view(r@) =~= actions_view(r_before) + actions_view(sub_v));
            lemma_plan_children_snoc(
                entries@.take(i as int),
                entries@[i as int],
                remote_root@,
                local_root@,
            );
            assert(entries@.take(i as int).push(entries@[i as int]) =~= entries@.take(i + 1));
        }
        i = i + 1;
    }
    proof {
        assert(entries@.take(entries@.len() as int) =~= entries@);
    }
    r
}

/// Planning one more entry appends that entry's actions.
pub proof fn lemma_plan_children_snoc(ts: Seq<Tree>, t: Tree, remote_dir: Seq<u8>, local_dir: Seq<u8>)
    ensures
        spec_plan_children(ts.push(t), remote_dir, local_dir) == spec_plan_children(
            ts,
            remote_dir,
            local_dir,
        ) + spec_plan_tree(t, remote_dir, local_dir),
    decreases ts.len(),
{
    if ts.len() == 0 {
        reveal_with_fuel(spec_plan_children, 2);
        assert(ts.push(t).first() == t);
        assert(ts.push(t).drop_first() =~= Seq::<Tree>::empty());
        assert(spec_plan_children(ts.push(t), remote_dir, local_dir) =~= spec_plan_children(
            ts,
            remote_dir,
            local_dir,
        ) + spec_plan_tree(t, remote_dir, local_dir));
    } else {
        assert(ts.push(t).first() == ts.first());
        assert(ts.push(t).drop_first() =~= ts.drop_first().push(t));
        lemma_plan_children_snoc(ts.drop_first(), t, remote_dir, local_dir);
        assert(spec_plan_children(ts.push(t), remote_dir, local_dir) =~= spec_plan_children(
            ts,
            remote_dir,
            local_dir,
        ) + spec_plan_tree(t, remote_dir, local_dir));
    }
}

/// Effect of one action on the local filesystem, under a run-wide
/// conflict decision: `overwrite` tells whether an existing local file
/// is replaced (`OverwriteAll`) or kept (`SkipAll`).
pub open spec fn spec_apply_action(fs: FsView, a: ActionV, overwrite: bool) -> FsView {
    match a {
        ActionV::MakeDir { local } => FsView { dirs: fs.dirs.insert(local), files: fs.files },
        ActionV::Transfer { local, content, .. } => {
            if fs.files.contains_key(local) && !overwrite {
                fs
            } else {
                FsView { dirs: fs.dirs, files: fs.files.insert(local, content) }
            }
        },
    }
}

/// Effect of a whole plan, action by action in plan order.
pub open spec fn spec_apply_plan(fs: FsView, actions: Seq<ActionV>, overwrite: bool) -> FsView
    decreases actions.len(),
{
    if actions.len() == 0 {
        fs
    } else {
        spec_apply_plan(
            spec_apply_action(fs, actions.first(), overwrite),
            actions.drop_first(),
            overwrite,
        )
    }
}

/// Performs one action on the local filesystem. The conflict resolver
/// decides whether an existing local file is replaced; the run-wide
/// decision must already be taken, so no prompt can be needed.
pub fn apply_action(fs: &mut LocalFs, a: &Action, resolver: &ConflictResolver)
    requires
        resolver.decision != ConflictDecision::AskEachTime,
    ensures
        final(fs)@ == spec_apply_action(
            old(fs)@,
            a@,
            resolver.decision == ConflictDecision::OverwriteAll,
        ),
{
    match a {
        Action::MakeDir { local } => {
            fs.make_dir(local);
        },
        Action::Transfer { task, content } => {
            let exists = fs.has_file(&task.local_path);
            match resolver.resolve(exists) {
                Some(Resolution::Proceed) => {
                    fs.write_file(&task.local_path, content);
                },
                Some(Resolution::Skip) => {},
                None => {
                    proof {
                        assert(false);
                    }
                },
            }
        },
    }
}

/// Performs a whole plan, in plan order, under an already-taken
/// run-wide conflict decision.
pub fn apply_plan(fs: &mut LocalFs, actions: &Vec<Action>, resolver: &ConflictResolver)
    requires
        resolver.decision != ConflictDecision::AskEachTime,
    ensures
        final(fs)@ == spec_apply_plan(
            old(fs)@,
            actions_view(actions@),
            resolver.decision == ConflictDecision::OverwriteAll,
        ),
{
    let ghost av = actions_view(actions@);
    let ghost ow = resolver.decision == ConflictDecision::OverwriteAll;
    proof {
        assert(av.skip(0) =~= av);
    }
    let mut i: usize = 0;
    while i < actions.len()
        invariant
            i <= actions@.len(),
            av == actions_view(actions@),
            ow == (resolver.decision == ConflictDecision::OverwriteAll),
            resolver.decision != ConflictDecision::AskEachTime,
            spec_apply_plan(old(fs)@, av, ow) == spec_apply_plan(fs@, av.skip(i as int), ow),
        decreases actions@.len() - i,
    {
        let ghost suffix = av.skip(i as int);
        apply_action(fs, &actions[i], resolver);
        proof {
            assert(suffix[0] == av[i as int]);
            assert(suffix.drop_first() =~= av.skip(i + 1));
        }
        i = i + 1;
    }
    proof {
        assert(av.skip(actions@.len() as int) =~= Seq::<ActionV>::empty());
    }
}

/// Whether an action is already reflected in the filesystem: its
/// directory exists, or its file exists — with the transferred content,
/// when the run overwrites existing files.
pub open spec fn spec_settled(fs: FsView, a: ActionV, overwrite: bool) -> bool {
    match a {
        ActionV::MakeDir { local } => fs.dirs.contains(local),
        ActionV::Transfer { local, content, .. } => fs.files.contains_key(local) && (overwrite
            ==> fs.files[local] == content),
    }
}

/// Two actions never transfer to the same local path.
pub open spec fn targets_distinct(a: ActionV, b: ActionV) -> bool {
    match (a, b) {
        (
            ActionV::Transfer { local: la, .. },
            ActionV::Transfer { local: lb, .. },
        ) => la != lb,
        _ => true,
    }
}

/// No two transfers of the plan write the same local path. A plan drawn
/// from one listing pass of a real directory tree has this shape.
pub open spec fn distinct_transfer_targets(s: Seq<ActionV>) -> bool {
    forall|i: int, j: int| 0 <= i < j < s.len() ==> targets_distinct(s[i], s[j])
}

/// An action that is already reflected stays reflected while actions
/// that transfer to other paths are applied.
pub proof fn lemma_settled_preserved(fs: FsView, a: ActionV, s: Seq<ActionV>, overwrite: bool)
    requires
        spec_settled(fs, a, overwrite),
        forall|k: int| 0 <= k < s.len() ==> targets_distinct(a, s[k]),
    ensures
        spec_settled(spec_apply_plan(fs, s, overwrite), a, overwrite),
    decreases s.len(),
{
    if s.len() > 0 {
        let fs1 = spec_apply_action(fs, s.first(), overwrite);
        assert(targets_distinct(a, s[0]));
        assert(spec_settled(fs1, a, overwrite));
        let rest = s.drop_first();
        assert forall|k: int| 0 <= k < rest.len() implies targets_distinct(a, rest[k]) by {
            assert(rest[k] == s[k + 1]);
        }
        lemma_settled_preserved(fs1, a, rest, overwrite);
    }
}

/// After a plan with distinct transfer targets runs, every one of its
/// actions is reflected in the resulting filesystem.
pub proof fn lemma_plan_settles(fs: FsView, s: Seq<ActionV>, overwrite: bool)
    requires
        distinct_transfer_targets(s),
    ensures
        forall|k: int|
            0 <= k < s.len() ==> spec_settled(spec_apply_plan(fs, s, overwrite), s[k], overwrite),
    decreases s.len(),
{
    if s.len() > 0 {
        let fs1 = spec_apply_action(fs, s.first(), overwrite);
        let rest = s.drop_first();
        assert forall|i: int, j: int|
            0 <= i < j < rest.len() implies targets_distinct(rest[i], rest[j]) by {
            assert(rest[i] == s[i + 1]);
            assert(rest[j] == s[j + 1]);
        }
        lemma_plan_settles(fs1, rest, overwrite);
        assert(spec_settled(fs1, s[0], overwrite));
        assert forall|k: int| 0 <= k < rest.len() implies targets_distinct(s[0], rest[k]) by {
            assert(rest[k] == s[k + 1]);
        }
        lemma_settled_preserved(fs1, s[0], rest, overwrite);
        assert forall|k: int|
            0 <= k < s.len() implies spec_settled(
            spec_apply_plan(fs, s, overwrite),
            s[k],
            overwrite,
        ) by {
            if k > 0 {
                assert(rest[k - 1] == s[k]);
            }
        }
    }
}

/// A plan whose every action is already reflected changes nothing.
pub proof fn lemma_apply_noop(fs: FsView, s: Seq<ActionV>, overwrite: bool)
    requires
        forall|k: int| 0 <= k < s.len() ==> spec_settled(fs, s[k], overwrite),
    ensures
        spec_apply_plan(fs, s, overwrite) == fs,
    decreases s.len(),
{
    if s.len() > 0 {
        let fs1 = spec_apply_action(fs, s.first(), overwrite);
        assert(spec_settled(fs, s[0], overwrite));
        assert(fs1 == fs) by {
            match s[0] {
                ActionV::MakeDir { local } => {
                    assert(fs.dirs.insert(local) =~= fs.dirs);
                    assert(fs1 =~= fs);
                },
                ActionV::Transfer { local, content, .. } => {
                    if overwrite {
                        assert(fs.files.insert(local, content) =~= fs.files);
                        assert(fs1 =~= fs);
                    }
                },
            }
        }
        let rest = s.drop_first();
        assert forall|k: int|
            0 <= k < rest.len() implies spec_settled(fs, rest[k], overwrite) by {
            assert(rest[k] == s[k + 1]);
        }
        lemma_apply_noop(fs, rest, overwrite);
    }
}

/// A usable entry name: non-empty and free of the path separator, as a
/// name listed inside a real directory is.
pub open spec fn valid_name(name: Seq<u8>) -> bool {
    name.len() > 0 && (forall|i: int| 0 <= i < name.len() ==> name[i] != SEPARATOR)
}

/// The name of a tree's root entry.
pub open spec fn tree_name(t: Tree) -> Seq<u8> {
    match t {
        Tree::File { name, .. } => name@,
        Tree::Dir { name, .. } => name@,
    }
}

/// A well-formed remote tree: every entry name is usable, and no two
/// entries of one directory share a name.
pub open spec fn tree_wf(t: Tree) -> bool
    decreases t,
{
    match t {
        Tree::File { name, .. } => valid_name(name@),
        Tree::Dir { name, children } => valid_name(name@) && children_wf(children@),
    }
}

/// Well-formedness of one directory's entries.
pub open spec fn children_wf(ts: Seq<Tree>) -> bool
    decreases ts,
{
    &&& forall|i: int| 0 <= i < ts.len() ==> tree_wf(#[trigger] ts[i])
    &&& forall|i: int, j: int| 0 <= i < j < ts.len() ==> tree_name(ts[i]) != tree_name(ts[j])
}

/// The local path an action transfers to, if it is a transfer.
pub open spec fn transfer_target(a: ActionV) -> Option<Seq<u8>> {
    match a {
        ActionV::Transfer { local, .. } => Some(local),
        _ => None,
    }
}

/// Whether `l` lies at or under `base`: it extends `base`, and either is
/// `base` itself or continues with a separator.
pub open spec fn target_under(l: Seq<u8>, base: Seq<u8>) -> bool {
    &&& l.len() >= base.len()
    &&& l.subrange(0, base.len() as int) == base
    &&& (l.len() == base.len() || l[base.len() as int] == SEPARATOR)
}

/// A path under one entry differs from a path under a sibling entry of
/// another name.
proof fn lemma_distinct_names_separate_targets(
    l1: Seq<u8>,
    l2: Seq<u8>,
    ld: Seq<u8>,
    n1: Seq<u8>,
    n2: Seq<u8>,
)
    requires
        valid_name(n1),
        valid_name(n2),
        n1 != n2,
        target_under(l1, join_spec(ld, n1)),
        target_under(l2, join_spec(ld, n2)),
    ensures
        l1 != l2,
{
    let p = if ld.len() > 0 && ld.last() == SEPARATOR {
        ld
    } else {
        ld + seq![SEPARATOR]
    };
    let b1 = p + n1;
    let b2 = p + n2;
    assert(join_spec(ld, n1) =~= b1);
    assert(join_spec(ld, n2) =~= b2);
    if l1 == l2 {
        assert(l1.subrange(0, b1.len() as int) == b1);
        assert(l1.subrange(0, b2.len() as int) == b2);
        if n1.len() == n2.len() {
            assert forall|k: int| 0 <= k < n1.len() implies n1[k] == n2[k] by {
                assert(l1.subrange(0, b1.len() as int)[p.len() + k] == l1[p.len() + k]);
                assert(l1.subrange(0, b2.len() as int)[p.len() + k] == l1[p.len() + k]);
                assert(b1[p.len() + k] == n1[k]);
                assert(b2[p.len() + k] == n2[k]);
            }
            assert(n1 =~= n2);
            assert(false);
        } else if n1.len() < n2.len() {
            assert(l1.len() >= b2.len());
            assert(l1.len() > b1.len());
            assert(l1[b1.len() as int] == SEPARATOR);
            assert(l1.subrange(0, b2.len() as int)[b1.len() as int] == l1[b1.len() as int]);
            assert(b2[b1.len() as int] == n2[n1.len() as int]);
            assert(n2[n1.len() as int] != SEPARATOR);
            assert(false);
        } else {
            assert(l2.len() >= b1.len());
            assert(l2.len() > b2.len());
            assert(l2[b2.len() as int] == SEPARATOR);
            assert(l2.subrange(0, b1.len() as int)[b2.len() as int] == l2[b2.len() as int]);
            assert(b1[b2.len() as int] == n1[n2.len() as int]);
            assert(n1[n2.len() as int] != SEPARATOR);
            assert(false);
        }
    }
}

/// A path under an entry of a directory lies under the directory itself.
proof fn lemma_target_under_extends(l: Seq<u8>, base: Seq<u8>, n: Seq<u8>)
    requires
        base.len() > 0,
        base.last() != SEPARATOR,
        target_under(l, join_spec(base, n)),
    ensures
        target_under(l, base),
{
    let b2 = base + seq![SEPARATOR] + n;
    assert(join_spec(base, n) =~= b2);
    assert(l.subrange(0, b2.len() as int) == b2);
    assert forall|k: int| 0 <= k < base.len() implies l[k] == base[k] by {
        assert(l.subrange(0, b2.len() as int)[k] == l[k]);
        assert(b2[k] == base[k]);
    }
    assert(l.subrange(0, base.len() as int) =~= base);
    assert(l.subrange(0, b2.len() as int)[base.len() as int] == l[base.len() as int]);
    assert(b2[base.len() as int] == SEPARATOR);
}

/// Every transfer of one entry's plan writes at or under that entry's
/// own local path.
proof fn lemma_plan_tree_targets(t: Tree, remote_dir: Seq<u8>, local_dir: Seq<u8>)
    requires
        tree_wf(t),
    ensures
        forall|k: int|
            0 <= k < spec_plan_tree(t, remote_dir, local_dir).len() ==> match transfer_target(
                #[trigger] spec_plan_tree(t, remote_dir, local_dir)[k],
            ) {
                Some(l) => target_under(l, join_spec(local_dir, tree_name(t))),
                None => true,
            },
    decreases t,
{
    let plan = spec_plan_tree(t, remote_dir, local_dir);
    let base = join_spec(local_dir, tree_name(t));
    match t {
        Tree::File { name, content } => {
            assert(plan[0] == ActionV::Transfer {
                remote: join_spec(remote_dir, name@),
                local: base,
                content: content@,
            });
            assert(base.subrange(0, base.len() as int) =~= base);
        },
        Tree::Dir { name, children } => {
            let sub_remote = join_spec(remote_dir, name@);
            let pc = spec_plan_children(children@, sub_remote, base);
            lemma_plan_children_targets(children@, sub_remote, base);
            assert(base.len() > 0 && base.last() != SEPARATOR) by {
                if local_dir.len() > 0 && local_dir.last() == SEPARATOR {
                    assert(base =~= local_dir + name@);
                } else {
                    assert(base =~= local_dir + seq![SEPARATOR] + name@);
                }
                assert(base.last() == name@.last());
                assert(name@[name@.len() - 1] != SEPARATOR);
            }
            assert forall|k: int|
                0 <= k < plan.len() implies match transfer_target(#[trigger] plan[k]) {
                Some(l) => target_under(l, base),
                None => true,
            } by {
                if k >= 1 {
                    assert(plan[k] == pc[k - 1]);
                    match transfer_target(pc[k - 1]) {
                        Some(l) => {
                            let i = choose|i: int|
                                0 <= i < children@.len() && target_under(
                                    l,
                                    join_spec(base, tree_name(children@[i])),
                                );
                            lemma_target_under_extends(l, base, tree_name(children@[i]));
                        },
                        None => {},
                    }
                }
            }
        },
    }
}

/// Every transfer of a directory plan writes at or under one of the
/// directory's entries.
proof fn lemma_plan_children_targets(ts: Seq<Tree>, remote_dir: Seq<u8>, local_dir: Seq<u8>)
    requires
        forall|i: int| 0 <= i < ts.len() ==> tree_wf(#[trigger] ts[i]),
    ensures
        forall|k: int|
            0 <= k < spec_plan_children(ts, remote_dir, local_dir).len() ==> match transfer_target(
                #[trigger] spec_plan_children(ts, remote_dir, local_dir)[k],
            ) {
                Some(l) => exists|i: int|
                    0 <= i < ts.len() && target_under(
                        l,
                        join_spec(local_dir, tree_name(#[trigger] ts[i])),
                    ),
                None => true,
            },
    decreases ts,
{
    if ts.len() > 0 {
        let pc = spec_plan_children(ts, remote_dir, local_dir);
        let pt0 = spec_plan_tree(ts.first(), remote_dir, local_dir);
        let rest = ts.drop_first();
        let pcr = spec_plan_children(rest, remote_dir, local_dir);
        lemma_plan_tree_targets(ts.first(), remote_dir, local_dir);
        assert forall|i: int| 0 <= i < rest.len() implies tree_wf(#[trigger] rest[i]) by {
            assert(rest[i] == ts[i + 1]);
        }
        lemma_plan_children_targets(rest, remote_dir, local_dir);
        assert forall|k: int| 0 <= k < pc.len() implies match transfer_target(#[trigger] pc[k]) {
            Some(l) => exists|i: int|
                0 <= i < ts.len() && target_under(
                    l,
                    join_spec(local_dir, tree_name(#[trigger] ts[i])),
                ),
            None => true,
        } by {
            if k < pt0.len() {
                assert(pc[k] == pt0[k]);
                match transfer_target(pt0[k]) {
                    Some(l) => {
                        assert(ts[0] == ts.first());
                        assert(target_under(l, join_spec(local_dir, tree_name(ts[0]))));
                    },
                    None => {},
                }
            } else {
                assert(pc[k] == pcr[k - pt0.len()]);
                match transfer_target(pcr[k - pt0.len()]) {
                    Some(l) => {
                        let i = choose|i: int|
                            0 <= i < rest.len() && target_under(
                                l,
                                join_spec(local_dir, tree_name(#[trigger] rest[i])),
                            );
                        assert(rest[i] == ts[i + 1]);
                        assert(target_under(l, join_spec(local_dir, tree_name(ts[i + 1]))));
                    },
                    None => {},
                }
            }
        }
    }
}

/// The plan of one well-formed entry never transfers twice to one path.
proof fn lemma_plan_tree_distinct(t: Tree, remote_dir: Seq<u8>, local_dir: Seq<u8>)
    requires
        tree_wf(t),
    ensures
        distinct_transfer_targets(spec_plan_tree(t, remote_dir, local_dir)),
    decreases t,
{
    let plan = spec_plan_tree(t, remote_dir, local_dir);
    match t {
        Tree::File { .. } => {
            assert(plan.len() == 1);
        },
        Tree::Dir { name, children } => {
            let sub_remote = join_spec(remote_dir, name@);
            let sub_local = join_spec(local_dir, name@);
            let pc = spec_plan_children(children@, sub_remote, sub_local);
            lemma_plan_children_distinct(children@, sub_remote, sub_local);
            assert forall|i: int, j: int|
                0 <= i < j < plan.len() implies targets_distinct(plan[i], plan[j]) by {
                if i >= 1 {
                    assert(plan[i] == pc[i - 1]);
                    assert(plan[j] == pc[j - 1]);
                    assert(targets_distinct(pc[i - 1], pc[j - 1]));
                }
            }
        },
    }
}

/// The plan of a well-formed directory never transfers twice to one
/// path: entries of different names write under different local paths.
pub proof fn lemma_plan_children_distinct(ts: Seq<Tree>, remote_dir: Seq<u8>, local_dir: Seq<u8>)
    requires
        children_wf(ts),
    ensures
        distinct_transfer_targets(spec_plan_children(ts, remote_dir, local_dir)),
    decreases ts,
{
    if ts.len() > 0 {
        let pc = spec_plan_children(ts, remote_dir, local_dir);
        let pt0 = spec_plan_tree(ts.first(), remote_dir, local_dir);
        let rest = ts.drop_first();
        let pcr = spec_plan_children(rest, remote_dir, local_dir);
        assert(tree_wf(ts[0]));
        lemma_plan_tree_distinct(ts.first(), remote_dir, local_dir);
        assert forall|i: int| 0 <= i < rest.len() implies tree_wf(#[trigger] rest[i]) by {
            assert(rest[i] == ts[i + 1]);
        }
        assert forall|i: int, j: int|
            0 <= i < j < rest.len() implies tree_name(rest[i]) != tree_name(rest[j]) by {
            assert(rest[i] == ts[i + 1]);
            assert(rest[j] == ts[j + 1]);
        }
        lemma_plan_children_distinct(rest, remote_dir, local_dir);
        lemma_plan_tree_targets(ts.first(), remote_dir, local_dir);
        lemma_plan_children_targets(rest, remote_dir, local_dir);
        assert forall|i: int, j: int|
            0 <= i < j < pc.len() implies targets_distinct(pc[i], pc[j]) by {
            if j < pt0.len() {
                assert(pc[i] == pt0[i]);
                assert(pc[j] == pt0[j]);
                assert(targets_distinct(pt0[i], pt0[j]));
            } else if i >= pt0.len() {
                assert(pc[i] == pcr[i - pt0.len()]);
                assert(pc[j] == pcr[j - pt0.len()]);
                assert(targets_distinct(pcr[i - pt0.len()], pcr[j - pt0.len()]));
            } else {
                assert(pc[i] == pt0[i]);
                assert(pc[j] == pcr[j - pt0.len()]);
                match (transfer_target(pt0[i]), transfer_target(pcr[j - pt0.len()])) {
                    (Some(l1), Some(l2)) => {
                        assert(ts[0] == ts.first());
                        assert(target_under(l1, join_spec(local_dir, tree_name(ts[0]))));
                        let w = choose|w: int|
                            0 <= w < rest.len() && target_under(
                                l2,
                                join_spec(local_dir, tree_name(#[trigger] rest[w])),
                            );
                        assert(rest[w] == ts[w + 1]);
                        assert(tree_name(ts[0]) != tree_name(ts[w + 1]));
                        assert(valid_name(tree_name(ts[0])));
                        assert(valid_name(tree_name(ts[w + 1])));
                        lemma_distinct_names_separate_targets(
                            l1,
                            l2,
                            local_dir,
                            tree_name(ts[0]),
                            tree_name(ts[w + 1]),
                        );
                    },
                    _ => {},
                }
            }
        }
    }
}

/// Mirroring the same remote tree a second time, under an already-taken
/// run-wide decision, changes nothing: the local tree after two runs of
/// one plan is the local tree after the first run. This holds from any
/// starting state, in particular from an empty local root, as long as no
/// two transfers of the plan write the same local path.
pub proof fn lemma_mirror_idempotent(fs: FsView, s: Seq<ActionV>, overwrite: bool)
    requires
        distinct_transfer_targets(s),
    ensures
        spec_apply_plan(spec_apply_plan(fs, s, overwrite), s, overwrite) == spec_apply_plan(
            fs,
            s,
            overwrite,
        ),
{
    lemma_plan_settles(fs, s, overwrite);
    lemma_apply_noop(spec_apply_plan(fs, s, overwrite), s, overwrite);
}

/// `base` extended with a chain of entry names, one directory level per
/// name.
pub open spec fn join_all(base: Seq<u8>, names: Seq<Seq<u8>>) -> Seq<u8>
    decreases names.len(),
{
    if names.len() == 0 {
        base
    } else {
        join_all(join_spec(base, names.first()), names.drop_first())
    }
}

/// An action mirrors the two roots when it works on one relative path:
/// its local path extends the local root by some non-empty chain of
/// entry names, and, for a transfer, its remote path extends the remote
/// root by the same chain.
pub open spec fn mirrors_roots(a: ActionV, remote_dir: Seq<u8>, local_dir: Seq<u8>) -> bool {
    match a {
        ActionV::MakeDir { local } => exists|names: Seq<Seq<u8>>|
            names.len() >= 1 && local == join_all(local_dir, names),
        ActionV::Transfer { remote, local, .. } => exists|names: Seq<Seq<u8>>|
            names.len() >= 1 && remote == join_all(remote_dir, names) && local == join_all(
                local_dir,
                names,
            ),
    }
}

/// Structural mirroring, for one entry's plan: every directory it
/// creates and every file it writes lies under the local root at exactly
/// the relative path the entry has under the remote root.
pub proof fn lemma_plan_tree_mirrors(t: Tree, remote_dir: Seq<u8>, local_dir: Seq<u8>)
    ensures
        forall|k: int|
            0 <= k < spec_plan_tree(t, remote_dir, local_dir).len() ==> mirrors_roots(
                #[trigger] spec_plan_tree(t, remote_dir, local_dir)[k],
                remote_dir,
                local_dir,
            ),
    decreases t,
{
    let plan = spec_plan_tree(t, remote_dir, local_dir);
    match t {
        Tree::File { name, content } => {
            let w = seq![name@];
            reveal_with_fuel(join_all, 2);
            assert(w.first() == name@);
            assert(w.drop_first() =~= Seq::<Seq<u8>>::empty());
            assert(join_all(remote_dir, w) == join_spec(remote_dir, name@));
            assert(join_all(local_dir, w) == join_spec(local_dir, name@));
            assert(mirrors_roots(plan[0], remote_dir, local_dir));
        },
        Tree::Dir { name, children } => {
            let sub_remote = join_spec(remote_dir, name@);
            let sub_local = join_spec(local_dir, name@);
            let pc = spec_plan_children(children@, sub_remote, sub_local);
            let w0 = seq![name@];
            reveal_with_fuel(join_all, 2);
            assert(w0.first() == name@);
            assert(w0.drop_first() =~= Seq::<Seq<u8>>::empty());
            assert(join_all(local_dir, w0) == sub_local);
            assert(mirrors_roots(plan[0], remote_dir, local_dir));
            lemma_plan_children_mirrors(children@, sub_remote, sub_local);
            assert forall|k: int|
                0 <= k < plan.len() implies mirrors_roots(
                #[trigger] plan[k],
                remote_dir,
                local_dir,
            ) by {
                if k >= 1 {
                    assert(plan[k] == pc[k - 1]);
                    assert(mirrors_roots(pc[k - 1], sub_remote, sub_local));
                    match pc[k - 1] {
                        ActionV::MakeDir { local } => {
                            let ns = choose|ns: Seq<Seq<u8>>|
                                ns.len() >= 1 && local == join_all(sub_local, ns);
                            let w = seq![name@] + ns;
                            assert(w.first() == name@);
                            assert(w.drop_first() =~= ns);
                            assert(join_all(local_dir, w) == join_all(sub_local, ns));
                        },
                        ActionV::Transfer { remote, local, .. } => {
                            let ns = choose|ns: Seq<Seq<u8>>|
                                ns.len() >= 1 && remote == join_all(sub_remote, ns) && local
                                    == join_all(sub_local, ns);
                            let w = seq![name@] + ns;
                            assert(w.first() == name@);
                            assert(w.drop_first() =~= ns);
                            assert(join_all(remote_dir, w) == join_all(sub_remote, ns));
                            assert(join_all(local_dir, w) == join_all(sub_local, ns));
                        },
                    }
                }
            }
        },
    }
}

/// Structural mirroring: the local tree a plan produces nests exactly as
/// the remote tree does — each action's local path extends the local
/// root by the relative path of the remote entry it comes from.
pub proof fn lemma_plan_children_mirrors(ts: Seq<Tree>, remote_dir: Seq<u8>, local_dir: Seq<u8>)
    ensures
        forall|k: int|
            0 <= k < spec_plan_children(ts, remote_dir, local_dir).len() ==> mirrors_roots(
                #[trigger] spec_plan_children(ts, remote_dir, local_dir)[k],
                remote_dir,
                local_dir,
            ),
    decreases ts,
{
    if ts.len() > 0 {
        let pc = spec_plan_children(ts, remote_dir, local_dir);
        let pt0 = spec_plan_tree(ts.first(), remote_dir, local_dir);
        let rest = ts.drop_first();
        let pcr = spec_plan_children(rest, remote_dir, local_dir);
        lemma_plan_tree_mirrors(ts.first(), remote_dir, local_dir);
        lemma_plan_children_mirrors(rest, remote_dir, local_dir);
        assert forall|k: int|
            0 <= k < pc.len() implies mirrors_roots(#[trigger] pc[k], remote_dir, local_dir) by {
            if k < pt0.len() {
                assert(pc[k] == pt0[k]);
            } else {
                assert(pc[k] == pcr[k - pt0.len()]);
            }
        }
    }
}

/// Idempotence for a real remote tree: mirroring a well-formed tree
/// twice into the same local root, under an already-taken run-wide
/// decision, leaves exactly the local tree of the first run.
pub proof fn lemma_mirror_tree_idempotent(
    fs: FsView,
    ts: Seq<Tree>,
    remote_root: Seq<u8>,
    local_root: Seq<u8>,
    overwrite: bool,
)
    requires
        children_wf(ts),
    ensures
        spec_apply_plan(
            spec_apply_plan(fs, spec_plan_children(ts, remote_root, local_root), overwrite),
            spec_plan_children(ts, remote_root, local_root),
            overwrite,
        ) == spec_apply_plan(fs, spec_plan_children(ts, remote_root, local_root), overwrite),
{
    lemma_plan_children_distinct(ts, remote_root, local_root);
    lemma_mirror_idempotent(fs, spec_plan_children(ts, remote_root, local_root), overwrite);
}

} // verus!
