//! What requests have done to the disk when they are over.
use vstd::prelude::*;
use vstd::utf8::*;

use crate::inode::NodeView;
use crate::laws::disk::{
    asked, contents_after, dirs_made, disk_ok, lemma_full, moved, on_disk, performs,
    requests_go_on_asking, requests_start_asking, requests_start_on_disk, requests_stay_on_disk,
    step_on_disk, Item,
};
use crate::laws::failed::lemma_moved_dirs_names;
use crate::laws::filed::{
    directory_for_tags_has_them, filed, filed_step, lemma_dirs_finite, lemma_tags_at_plain, requests_start_filed,
    requests_stay_filed, well_named,
};
use crate::laws::plain::{lemma_placed, lemma_plain_dir, plain, plain_path};
use crate::laws::requests::{
    requests_go_on_well, requests_start_well, starts, under_way, Request,
};
use crate::laws::runs::{is_tag_dir, run};
use crate::names::{Name, Path};
use crate::ops::{placed, OpView, OutcomeView, Reply, StepView, TaskView};
use crate::state::{first_path, lemma_first_path};
use crate::tagfs::{Errno, TagView};

verus! {

/// Operations that are performed one after the other: the disk after each of them,
/// and what came of it.
pub type Trace = Seq<(Map<Path, Item>, Reply)>;

/// The system performs the operations that a request asks for. A new file holds
/// `new_contents`.
pub open spec fn happens(
    d: Map<Path, Item>,
    step: StepView,
    trace: Trace,
    new_contents: int,
) -> bool
    decreases trace.len(),
{
    if trace.len() == 0 {
        true
    } else {
        match step {
            StepView::Ask(op, fs, task) => {
                &&& performs(d, op, trace[0].0, trace[0].1, new_contents)
                &&& disk_ok(trace[0].0)
                &&& happens(
                    trace[0].0,
                    fs.resumed(task, trace[0].1),
                    trace.drop_first(),
                    new_contents,
                )
            },
            StepView::End(_, _) => false,
        }
    }
}

/// What came of the operations.
pub open spec fn replies_of(trace: Trace) -> Seq<Reply> {
    Seq::new(trace.len(), |i: int| trace[i].1)
}

/// The disk after the operations.
pub open spec fn disk_after(d: Map<Path, Item>, trace: Trace) -> Map<Path, Item> {
    if trace.len() == 0 {
        d
    } else {
        trace.last().0
    }
}

/// The contents of the files by name after the operations.
pub open spec fn contents_then(
    contents: Map<Name, int>,
    step: StepView,
    trace: Trace,
    new_contents: int,
) -> Map<Name, int>
    decreases trace.len(),
{
    if trace.len() == 0 {
        contents
    } else {
        match step {
            StepView::Ask(_, fs, task) => contents_then(
                contents_after(contents, task, trace[0].1, new_contents),
                fs.resumed(task, trace[0].1),
                trace.drop_first(),
                new_contents,
            ),
            StepView::End(_, _) => contents,
        }
    }
}

/// A step asks for the operation of its task, and can go on.
spec fn sound_step(step: StepView) -> bool {
    &&& under_way(step)
    &&& filed_step(step)
    &&& step matches StepView::Ask(op, fs, task) ==> op == asked(fs, task)
}

proof fn lemma_happened(
    d: Map<Path, Item>,
    step: StepView,
    trace: Trace,
    contents: Map<Name, int>,
    new_contents: int,
)
    requires
        disk_ok(d),
        sound_step(step),
        step_on_disk(d, step, contents),
        happens(d, step, trace, new_contents),
    ensures
        step_on_disk(
            disk_after(d, trace),
            run(step, replies_of(trace)),
            contents_then(contents, step, trace, new_contents),
        ),
        disk_ok(disk_after(d, trace)),
    decreases trace.len(),
{
    if trace.len() > 0 {
        if let StepView::Ask(op, fs, task) = step {
            let reply = trace[0].1;
            let next = fs.resumed(task, reply);
            let rest = trace.drop_first();
            requests_go_on_well(fs, task, reply);
            requests_stay_filed(fs, task, reply);
            requests_go_on_asking(fs, task, reply);
            requests_stay_on_disk(d, fs, task, trace[0].0, reply, contents, new_contents);
            lemma_happened(
                trace[0].0,
                next,
                rest,
                contents_after(contents, task, reply, new_contents),
                new_contents,
            );
            assert(replies_of(trace).drop_first() =~= replies_of(rest));
            assert(disk_after(trace[0].0, rest) == disk_after(d, trace));
        }
    } else {
        assert(replies_of(trace) =~= Seq::empty());
    }
}

proof fn lemma_sound_start(fs: TagView, request: Request, step: StepView)
    requires
        filed(fs.state),
        fs.state.inodes.next < u64::MAX,
        well_named(request),
        starts(fs, request, step),
    ensures
        sound_step(step),
{
    requests_start_well(fs, request, step);
    requests_start_filed(fs, request, step);
    requests_start_asking(fs, request, step);
}

/// However a request comes out, in the end the index says what is on the disk.
pub proof fn in_the_end_the_index_says_what_is_on_disk(
    d: Map<Path, Item>,
    fs: TagView,
    request: Request,
    step: StepView,
    trace: Trace,
    contents: Map<Name, int>,
    new_contents: int,
)
    requires
        disk_ok(d),
        on_disk(d, fs, contents),
        fs.state.inodes.next < u64::MAX,
        well_named(request),
        starts(fs, request, step),
        happens(d, step, trace, new_contents),
    ensures
        run(step, replies_of(trace)) matches StepView::End(after, _) ==> on_disk(
            disk_after(d, trace),
            after,
            contents_then(contents, step, trace, new_contents),
        ),
{
    requests_start_on_disk(d, fs, request, step, contents);
    lemma_sound_start(fs, request, step);
    lemma_happened(d, step, trace, contents, new_contents);
}

/// The task neither makes, deletes nor renames a file.
spec fn keeps_names(task: TaskView) -> bool {
    !(task is CreateDir || task is CreateFile || task is Unlink || task is RenameLook
        || task is RenameMove)
}

/// The step neither makes, deletes nor renames a file, and knows these names.
spec fn step_keeps_names(step: StepView, names: Set<Name>) -> bool {
    match step {
        StepView::Ask(_, fs, task) => keeps_names(task) && fs.state.files.dom() == names,
        StepView::End(fs, _) => fs.state.files.dom() == names,
    }
}

proof fn lemma_unrolled(step: StepView, trace: Trace)
    ensures
        trace.len() == 0 ==> run(step, replies_of(trace)) == step,
        step is End ==> run(step, replies_of(trace)) == step,
        trace.len() > 0 ==> (step matches StepView::Ask(_, fs, task) ==> run(
            step,
            replies_of(trace),
        ) == run(fs.resumed(task, trace[0].1), replies_of(trace.drop_first()))),
{
    if trace.len() > 0 {
        assert(replies_of(trace).drop_first() =~= replies_of(trace.drop_first()));
    }
}

proof fn lemma_retag_names(fs: TagView, bn: Name, add: Set<Name>, remove: Set<Name>)
    requires
        fs.state.files.contains_key(bn),
    ensures
        step_keeps_names(fs.retag_step(bn, add, remove), fs.state.files.dom()),
        step_keeps_names(fs.retag_placed(bn, add, remove), fs.state.files.dom()),
        forall|ffn: Path|
            step_keeps_names(
                #[trigger] fs.retag_done(bn, add, remove, ffn),
                fs.state.files.dom(),
            ),
{
    assert forall|ffn: Path|
        step_keeps_names(
            #[trigger] fs.retag_done(bn, add, remove, ffn),
            fs.state.files.dom(),
        ) by {
        assert(fs.state.with_changed_tags(bn, add, remove, ffn).files.dom()
            =~= fs.state.files.dom());
    }
    let tags = fs.state.changed_tags(bn, add, remove);
    let mid = fs.with(fs.state.with_dir_for_tags(tags));
    assert forall|ffn: Path|
        step_keeps_names(
            #[trigger] mid.retag_done(bn, add, remove, ffn),
            fs.state.files.dom(),
        ) by {
        assert(mid.state.with_changed_tags(bn, add, remove, ffn).files.dom()
            =~= fs.state.files.dom());
    }
}

proof fn lemma_names_go_on(fs: TagView, task: TaskView, reply: Reply)
    requires
        keeps_names(task),
        task.fits(fs.state),
    ensures
        step_keeps_names(fs.resumed(task, reply), fs.state.files.dom()),
{
    match task {
        TaskView::RetagDir { bn, add, remove } => {
            lemma_retag_names(fs, bn, add, remove);
        },
        TaskView::RetagMove { bn, add, remove, .. } => {
            lemma_retag_names(fs, bn, add, remove);
        },
        TaskView::TagLookOld { old, new, .. } => {
            assert(fs.state.with_renamed_tag(old, new).files.dom() =~= fs.state.files.dom());
        },
        TaskView::TagLookNew { old, new, .. } => {
            assert(fs.state.with_renamed_tag(old, new).files.dom() =~= fs.state.files.dom());
        },
        TaskView::TagMove { old, new, plan, at } => {
            assert(fs.state.with_renamed_tag(old, new).files.dom() =~= fs.state.files.dom());
            lemma_moved_dirs_names(fs.state, plan.take(at));
        },
        _ => {},
    }
}

proof fn lemma_names_kept(
    contents: Map<Name, int>,
    step: StepView,
    trace: Trace,
    new_contents: int,
    names: Set<Name>,
)
    requires
        under_way(step),
        step_keeps_names(step, names),
    ensures
        contents_then(contents, step, trace, new_contents) == contents,
        run(step, replies_of(trace)) matches StepView::End(after, _) ==> after.state.files.dom()
            == names,
    decreases trace.len(),
{
    lemma_unrolled(step, trace);
    if trace.len() > 0 {
        if let StepView::Ask(_, fs, task) = step {
            let reply = trace[0].1;
            requests_go_on_well(fs, task, reply);
            lemma_names_go_on(fs, task, reply);
            lemma_names_kept(
                contents,
                fs.resumed(task, reply),
                trace.drop_first(),
                new_contents,
                names,
            );
        }
    }
}

/// The name that a file had before a request, by the name that it has after it.
pub open spec fn earlier_name(fs: TagView, request: Request, n: Name) -> Name {
    if fs.state.files.contains_key(n) {
        n
    } else {
        match request {
            Request::RenameFile { old_bn, .. } => old_bn,
            Request::Rename { name, .. } => name,
            _ => n,
        }
    }
}

/// However a request comes out, every file that is known in the end holds what it
/// held before, under the name that it had then. One that was not known holds what
/// a new file holds.
pub proof fn files_keep_their_contents(
    d: Map<Path, Item>,
    fs: TagView,
    request: Request,
    step: StepView,
    trace: Trace,
    contents: Map<Name, int>,
    new_contents: int,
    after: TagView,
    result: Result<OutcomeView, Errno>,
    n: Name,
)
    requires
        disk_ok(d),
        on_disk(d, fs, contents),
        fs.state.inodes.next < u64::MAX,
        well_named(request),
        starts(fs, request, step),
        happens(d, step, trace, new_contents),
        run(step, replies_of(trace)) == StepView::End(after, result),
        after.state.files.contains_key(n),
    ensures
        ({
            let m = earlier_name(fs, request, n);
            let now = disk_after(d, trace);
            let place = after.root + after.state.files[n].ffn;
            &&& now.contains_key(place)
            &&& fs.state.files.contains_key(m) ==> now[place] == d[fs.root + fs.state.files[m].ffn]
            &&& !fs.state.files.contains_key(m) ==> now[place] == Item::File(new_contents)
        }),
{
    in_the_end_the_index_says_what_is_on_disk(
        d,
        fs,
        request,
        step,
        trace,
        contents,
        new_contents,
    );
    lemma_contents_follow(fs, request, step, trace, contents, new_contents, after, result);
    let m = earlier_name(fs, request, n);
    if fs.state.files.contains_key(m) {
        assert(d[fs.root + fs.state.files[m].ffn] == Item::File(contents[m]));
    }
}

/// Each file that is known in the end has the contents of the file that it was.
spec fn contents_follow(
    fs: TagView,
    request: Request,
    contents: Map<Name, int>,
    then: Map<Name, int>,
    new_contents: int,
    after: TagView,
) -> bool {
    forall|n: Name| #[trigger]
        after.state.files.contains_key(n) ==> {
            let m = earlier_name(fs, request, n);
            &&& fs.state.files.contains_key(m) ==> then[n] == contents[m]
            &&& !fs.state.files.contains_key(m) ==> then[n] == new_contents
        }
}

proof fn lemma_contents_unrolled(
    contents: Map<Name, int>,
    step: StepView,
    trace: Trace,
    new_contents: int,
)
    ensures
        trace.len() == 0 ==> contents_then(contents, step, trace, new_contents) == contents,
        step is End ==> contents_then(contents, step, trace, new_contents) == contents,
        trace.len() > 0 ==> (step matches StepView::Ask(_, fs, task) ==> contents_then(
            contents,
            step,
            trace,
            new_contents,
        ) == contents_then(
            contents_after(contents, task, trace[0].1, new_contents),
            fs.resumed(task, trace[0].1),
            trace.drop_first(),
            new_contents,
        )),
{
}

proof fn lemma_unlink_contents(
    fs: TagView,
    bn: Name,
    trace: Trace,
    contents: Map<Name, int>,
    new_contents: int,
    after: TagView,
    result: Result<OutcomeView, Errno>,
)
    requires
        run(fs.unlink_step(bn), replies_of(trace)) == StepView::End(after, result),
    ensures
        ({
            let then = contents_then(contents, fs.unlink_step(bn), trace, new_contents);
            forall|n: Name| #[trigger]
                after.state.files.contains_key(n) ==> fs.state.files.contains_key(n) && then[n]
                    == contents[n]
        }),
{
    let step = fs.unlink_step(bn);
    lemma_unrolled(step, trace);
    lemma_contents_unrolled(contents, step, trace, new_contents);
    if fs.state.files.contains_key(bn) {
        let task = TaskView::Unlink { bn };
        let reply = trace[0].1;
        let next = fs.resumed(task, reply);
        let rest = trace.drop_first();
        lemma_unrolled(next, rest);
        lemma_contents_unrolled(
            contents_after(contents, task, reply, new_contents),
            next,
            rest,
            new_contents,
        );
        assert(next is End);
        assert(next == StepView::End(after, result));
    }
}

proof fn lemma_made_contents(
    fs: TagView,
    bn: Name,
    tags: Set<Name>,
    ffn: Path,
    op: OpView,
    trace: Trace,
    contents: Map<Name, int>,
    new_contents: int,
    after: TagView,
    result: Result<OutcomeView, Errno>,
)
    requires
        run(
            StepView::Ask(op, fs, TaskView::CreateFile { bn, tags, ffn }),
            replies_of(trace),
        ) == StepView::End(after, result),
        !fs.state.files.contains_key(bn),
    ensures
        ({
            let then = contents_then(
                contents,
                StepView::Ask(op, fs, TaskView::CreateFile { bn, tags, ffn }),
                trace,
                new_contents,
            );
            forall|n: Name| #[trigger]
                after.state.files.contains_key(n) ==> then[n] == (if fs.state.files.contains_key(
                    n,
                ) {
                    contents[n]
                } else {
                    new_contents
                })
        }),
{
    let task = TaskView::CreateFile { bn, tags, ffn };
    let step = StepView::Ask(op, fs, task);
    lemma_unrolled(step, trace);
    lemma_contents_unrolled(contents, step, trace, new_contents);
    let reply = trace[0].1;
    let next = fs.resumed(task, reply);
    let rest = trace.drop_first();
    lemma_unrolled(next, rest);
    lemma_contents_unrolled(
        contents_after(contents, task, reply, new_contents),
        next,
        rest,
        new_contents,
    );
    assert(next is End);
    assert(next == StepView::End(after, result));
}

proof fn lemma_create_contents(
    fs: TagView,
    parent: u64,
    bn: Name,
    trace: Trace,
    contents: Map<Name, int>,
    new_contents: int,
    after: TagView,
    result: Result<OutcomeView, Errno>,
)
    requires
        run(fs.create_step(parent, bn), replies_of(trace)) == StepView::End(after, result),
    ensures
        ({
            let then = contents_then(
                contents,
                fs.create_step(parent, bn),
                trace,
                new_contents,
            );
            forall|n: Name| #[trigger]
                after.state.files.contains_key(n) ==> then[n] == (if fs.state.files.contains_key(
                    n,
                ) {
                    contents[n]
                } else {
                    new_contents
                })
        }),
{
    let step = fs.create_step(parent, bn);
    lemma_unrolled(step, trace);
    lemma_contents_unrolled(contents, step, trace, new_contents);
    if is_tag_dir(fs, parent) && !fs.state.files.contains_key(bn) {
        let tags = fs.tags_at(parent, bn).unwrap();
        let mid = fs.with(fs.state.with_dir_for_tags(tags));
        let ffn = placed(fs.state.dir_for_tags(tags), bn);
        let op = OpView::CreateFile(fs.full(ffn));
        if fs.state.dir_is_missing(tags) {
            let task = TaskView::CreateDir { bn, tags };
            let reply = trace[0].1;
            let next = fs.resumed(task, reply);
            let rest = trace.drop_first();
            assert(contents_after(contents, task, reply, new_contents) == contents);
            if reply is Ok {
                assert(next == StepView::Ask(op, mid, TaskView::CreateFile { bn, tags, ffn }));
                lemma_made_contents(
                    mid,
                    bn,
                    tags,
                    ffn,
                    op,
                    rest,
                    contents,
                    new_contents,
                    after,
                    result,
                );
            } else {
                lemma_unrolled(next, rest);
                lemma_contents_unrolled(contents, next, rest, new_contents);
                assert(next is End);
            }
        } else {
            assert(step == StepView::Ask(op, mid, TaskView::CreateFile { bn, tags, ffn }));
            lemma_made_contents(
                mid,
                bn,
                tags,
                ffn,
                op,
                trace,
                contents,
                new_contents,
                after,
                result,
            );
        }
    } else {
        assert(step is End);
    }
}

proof fn lemma_renamed_contents(
    fs: TagView,
    old: Name,
    new: Name,
    add: Set<Name>,
    remove: Set<Name>,
    op: OpView,
    trace: Trace,
    contents: Map<Name, int>,
    new_contents: int,
    after: TagView,
    result: Result<OutcomeView, Errno>,
)
    requires
        fs.state.inodes.next < u64::MAX,
        fs.state.files.contains_key(old),
        !fs.state.files.contains_key(new),
        run(
            StepView::Ask(op, fs, TaskView::RenameMove { old_bn: old, new_bn: new, add, remove }),
            replies_of(trace),
        ) == StepView::End(after, result),
    ensures
        ({
            let then = contents_then(
                contents,
                StepView::Ask(
                    op,
                    fs,
                    TaskView::RenameMove { old_bn: old, new_bn: new, add, remove },
                ),
                trace,
                new_contents,
            );
            forall|n: Name| #[trigger]
                after.state.files.contains_key(n) ==> then[n] == contents[if fs.state.files.contains_key(
                    n,
                ) {
                    n
                } else {
                    old
                }]
        }),
{
    let task = TaskView::RenameMove { old_bn: old, new_bn: new, add, remove };
    let step = StepView::Ask(op, fs, task);
    lemma_unrolled(step, trace);
    lemma_contents_unrolled(contents, step, trace, new_contents);
    let reply = trace[0].1;
    let next = fs.resumed(task, reply);
    let rest = trace.drop_first();
    let now = contents_after(contents, task, reply, new_contents);
    if reply is Ok {
        let mid = fs.with(fs.state.with_renamed_file(old, new));
        let names = fs.state.files.dom().remove(old).insert(new);
        assert(mid.state.files.dom() =~= names);
        assert(next == mid.retag_if_any(new, add, remove));
        requests_go_on_well(fs, task, reply);
        lemma_retag_names(mid, new, add, remove);
        lemma_names_kept(now, next, rest, new_contents, names);
        assert forall|n: Name| #[trigger] after.state.files.contains_key(n) implies now[n]
            == contents[if fs.state.files.contains_key(n) {
            n
        } else {
            old
        }] by {
            assert(names.contains(n));
        }
    } else {
        lemma_unrolled(next, rest);
        lemma_contents_unrolled(now, next, rest, new_contents);
        assert(next is End);
    }
}

proof fn lemma_rename_contents(
    fs: TagView,
    old: Name,
    new: Name,
    add: Set<Name>,
    remove: Set<Name>,
    trace: Trace,
    contents: Map<Name, int>,
    new_contents: int,
    after: TagView,
    result: Result<OutcomeView, Errno>,
)
    requires
        fs.state.inodes.next < u64::MAX,
        run(fs.rename_file_step(old, new, add, remove), replies_of(trace)) == StepView::End(
            after,
            result,
        ),
    ensures
        ({
            let then = contents_then(
                contents,
                fs.rename_file_step(old, new, add, remove),
                trace,
                new_contents,
            );
            forall|n: Name| #[trigger]
                after.state.files.contains_key(n) ==> (if fs.state.files.contains_key(n) {
                    then[n] == contents[n]
                } else {
                    fs.state.files.contains_key(old) && then[n] == contents[old]
                })
        }),
{
    let step = fs.rename_file_step(old, new, add, remove);
    lemma_unrolled(step, trace);
    lemma_contents_unrolled(contents, step, trace, new_contents);
    if fs.state.files.contains_key(old) && !fs.state.files.contains_key(new) {
        let task = TaskView::RenameLook { old_bn: old, new_bn: new, add, remove };
        let reply = trace[0].1;
        let next = fs.resumed(task, reply);
        let rest = trace.drop_first();
        let op = OpView::Rename(
            fs.full(fs.state.files[old].ffn),
            fs.full(fs.state.renamed_ffn(old, new)),
        );
        assert(contents_after(contents, task, reply, new_contents) == contents);
        if next is Ask {
            assert(next == StepView::Ask(
                op,
                fs,
                TaskView::RenameMove { old_bn: old, new_bn: new, add, remove },
            ));
            lemma_renamed_contents(
                fs,
                old,
                new,
                add,
                remove,
                op,
                rest,
                contents,
                new_contents,
                after,
                result,
            );
        } else {
            lemma_unrolled(next, rest);
            lemma_contents_unrolled(contents, next, rest, new_contents);
        }
    } else {
        assert(step is End);
    }
}

proof fn lemma_contents_follow(
    fs: TagView,
    request: Request,
    step: StepView,
    trace: Trace,
    contents: Map<Name, int>,
    new_contents: int,
    after: TagView,
    result: Result<OutcomeView, Errno>,
)
    requires
        fs.state.inodes.next < u64::MAX,
        starts(fs, request, step),
        run(step, replies_of(trace)) == StepView::End(after, result),
    ensures
        contents_follow(
            fs,
            request,
            contents,
            contents_then(contents, step, trace, new_contents),
            new_contents,
            after,
        ),
{
    let names = fs.state.files.dom();
    requests_start_well(fs, request, step);
    lemma_unrolled(step, trace);
    match request {
        Request::Create { parent, bn } => {
            lemma_create_contents(
                fs,
                parent,
                bn,
                trace,
                contents,
                new_contents,
                after,
                result,
            );
        },
        Request::Unlink { bn } => {
            lemma_unlink_contents(fs, bn, trace, contents, new_contents, after, result);
        },
        Request::RenameFile { old_bn, new_bn } => {
            lemma_rename_contents(
                fs,
                old_bn,
                new_bn,
                Set::empty(),
                Set::empty(),
                trace,
                contents,
                new_contents,
                after,
                result,
            );
        },
        Request::Rename { parent, name, new_parent, new_name } => {
            let was = fs.tags_before(parent, name, new_parent);
            let now = fs.tags_after(parent, name, new_parent);
            if was is Some && now is Some && fs.state.files.contains_key(name) {
                let add = now.unwrap().difference(was.unwrap());
                let remove = was.unwrap().difference(now.unwrap());
                if name != new_name {
                    lemma_rename_contents(
                        fs,
                        name,
                        new_name,
                        add,
                        remove,
                        trace,
                        contents,
                        new_contents,
                        after,
                        result,
                    );
                } else {
                    lemma_retag_names(fs, name, add, remove);
                    lemma_names_kept(contents, step, trace, new_contents, names);
                }
            } else {
                lemma_tag_names(fs, name, new_name);
                lemma_names_kept(contents, step, trace, new_contents, names);
            }
        },
        Request::Retag { bn, add, remove } => {
            if fs.state.files.contains_key(bn) {
                lemma_retag_names(fs, bn, add, remove);
            }
            lemma_names_kept(contents, step, trace, new_contents, names);
        },
        Request::RenameTag { old, new } => {
            lemma_tag_names(fs, old, new);
            lemma_names_kept(contents, step, trace, new_contents, names);
        },
        _ => {
            lemma_names_kept(contents, step, trace, new_contents, names);
        },
    }
}

proof fn lemma_tag_names(fs: TagView, old: Name, new: Name)
    ensures
        fs.state.with_renamed_tag(old, new).files.dom() == fs.state.files.dom(),
{
    assert(fs.state.with_renamed_tag(old, new).files.dom() =~= fs.state.files.dom());
}

/// A file that was deleted is gone from the disk, and nothing else is. Where that
/// failed the disk is the same.
pub proof fn deleted_files_are_gone_from_disk(
    d: Map<Path, Item>,
    fs: TagView,
    bn: Name,
    trace: Trace,
    new_contents: int,
    after: TagView,
    result: Result<OutcomeView, Errno>,
)
    requires
        filed(fs.state),
        happens(d, fs.unlink_step(bn), trace, new_contents),
        run(fs.unlink_step(bn), replies_of(trace)) == StepView::End(after, result),
    ensures
        result is Ok ==> fs.state.files.contains_key(bn) && d.contains_key(
            fs.root + fs.state.files[bn].ffn,
        ) && disk_after(d, trace) == d.remove(fs.root + fs.state.files[bn].ffn),
        result is Err ==> disk_after(d, trace) == d,
{
    reveal_with_fuel(happens, 3);
    let step = fs.unlink_step(bn);
    lemma_unrolled(step, trace);
    if fs.state.files.contains_key(bn) {
        lemma_full(fs, fs.state.files[bn].ffn);
        let next = fs.resumed(TaskView::Unlink { bn }, trace[0].1);
        lemma_unrolled(next, trace.drop_first());
        assert(trace.drop_first().len() == 0);
        assert(trace.last() == trace[0]);
    }
}

/// Making a tag only makes directories on the disk.
pub proof fn made_tags_only_make_directories(
    d: Map<Path, Item>,
    fs: TagView,
    parent: u64,
    name: Name,
    trace: Trace,
    new_contents: int,
)
    requires
        happens(d, fs.mkdir_step(parent, name), trace, new_contents),
    ensures
        dirs_made(d, disk_after(d, trace)),
{
    reveal_with_fuel(happens, 3);
    if trace.len() > 0 {
        assert(trace.drop_first().len() == 0);
        assert(trace.last() == trace[0]);
    }
}

proof fn lemma_file_made(
    d: Map<Path, Item>,
    fs: TagView,
    bn: Name,
    tags: Set<Name>,
    ffn: Path,
    trace: Trace,
    new_contents: int,
    after: TagView,
    outcome: OutcomeView,
)
    requires
        ({
            let step = StepView::Ask(
                OpView::CreateFile(fs.full(ffn)),
                fs,
                TaskView::CreateFile { bn, tags, ffn },
            );
            &&& happens(d, step, trace, new_contents)
            &&& run(step, replies_of(trace)) == StepView::End(after, Ok(outcome))
        }),
    ensures
        after == fs.with(fs.state.with_new_file(bn, tags, ffn)),
        !d.contains_key(fs.full(ffn)),
        trace.len() > 0,
        disk_after(d, trace) == d.insert(fs.full(ffn), Item::File(new_contents)),
{
    let task = TaskView::CreateFile { bn, tags, ffn };
    let step = StepView::Ask(OpView::CreateFile(fs.full(ffn)), fs, task);
    lemma_unrolled(step, trace);
    let next = fs.resumed(task, trace[0].1);
    lemma_unrolled(next, trace.drop_first());
    assert(next is End);
    assert(happens(trace[0].0, next, trace.drop_first(), new_contents));
    assert(trace.drop_first().len() == 0);
    assert(trace.last() == trace[0]);
}

/// A file that was made is on the disk at its place, where nothing was. Everything
/// that was there is still there, and what else is new are directories.
pub proof fn made_files_are_on_disk(
    d: Map<Path, Item>,
    fs: TagView,
    parent: u64,
    bn: Name,
    trace: Trace,
    new_contents: int,
    after: TagView,
    outcome: OutcomeView,
)
    requires
        filed(fs.state),
        plain(bn),
        is_tag_dir(fs, parent),
        happens(d, fs.create_step(parent, bn), trace, new_contents),
        run(fs.create_step(parent, bn), replies_of(trace)) == StepView::End(after, Ok(outcome)),
    ensures
        ({
            let now = disk_after(d, trace);
            let place = fs.root + after.state.files[bn].ffn;
            &&& after.state.files.contains_key(bn)
            &&& !d.contains_key(place)
            &&& now.contains_key(place) && now[place] == Item::File(new_contents)
            &&& dirs_made(d, now.remove(place))
        }),
{
    let step = fs.create_step(parent, bn);
    let tags = fs.tags_at(parent, bn).unwrap();
    lemma_unrolled(step, trace);
    if !fs.state.files.contains_key(bn) {
        let ffn = placed(fs.state.dir_for_tags(tags), bn);
        let mid = fs.with(fs.state.with_dir_for_tags(tags));
        let place = fs.full(ffn);
        lemma_tags_at_plain(fs, parent, bn);
        directory_for_tags_has_them(fs.state, tags);
        lemma_placed(fs.state.dir_for_tags(tags), bn);
        lemma_full(fs, ffn);
        assert(mid.full(ffn) == place);
        if fs.state.dir_is_missing(tags) {
            let task = TaskView::CreateDir { bn, tags };
            let second = fs.resumed(task, trace[0].1);
            let rest = trace.drop_first();
            let d1 = trace[0].0;
            lemma_unrolled(second, rest);
            assert(trace[0].1 is Ok);
            assert(happens(d1, second, rest, new_contents));
            lemma_file_made(d1, mid, bn, tags, ffn, rest, new_contents, after, outcome);
            assert(disk_after(d, trace) == disk_after(d1, rest));
            assert(d1.insert(place, Item::File(new_contents)).remove(place) =~= d1);
        } else {
            lemma_file_made(d, mid, bn, tags, ffn, trace, new_contents, after, outcome);
            assert(d.insert(place, Item::File(new_contents)).remove(place) =~= d);
        }
    } else {
        assert(step is End);
    }
}

/// Only directories of the tags are gone from the disk.
pub open spec fn only_dirs_gone(
    d: Map<Path, Item>,
    now: Map<Path, Item>,
    root: Path,
    dirs: Set<Path>,
) -> bool {
    &&& forall|q: Path| #[trigger] now.contains_key(q) ==> d.contains_key(q) && now[q] == d[q]
    &&& forall|q: Path| #[trigger]
        d.contains_key(q) && !now.contains_key(q) ==> exists|p: Path|
            dirs.contains(p) && q == root + p
}

/// The step looks for a directory of the tags, removes one, or is the last.
spec fn takes_dirs(fs: TagView, tags: Set<Name>, step: StepView) -> bool {
    step == fs.rmdir_next(tags) || (fs.state.knows_dir(tags) && step == StepView::Ask(
        OpView::RemoveDir(fs.full(first_path(fs.state.tagdirs[tags]))),
        fs,
        TaskView::RmdirDrop { tags },
    ))
}

proof fn lemma_dirs_gone(
    d: Map<Path, Item>,
    fs: TagView,
    tags: Set<Name>,
    step: StepView,
    trace: Trace,
    new_contents: int,
    after: TagView,
    result: Result<OutcomeView, Errno>,
)
    requires
        takes_dirs(fs, tags, step),
        fs.state.tagdirs.contains_key(tags),
        fs.state.tagdirs[tags].finite(),
        forall|p: Path| #[trigger] fs.state.tagdirs[tags].contains(p) ==> plain_path(p),
        happens(d, step, trace, new_contents),
        run(step, replies_of(trace)) == StepView::End(after, result),
    ensures
        only_dirs_gone(d, disk_after(d, trace), fs.root, fs.state.tagdirs[tags]),
        result is Ok ==> forall|p: Path| #[trigger]
            fs.state.tagdirs[tags].contains(p) ==> !disk_after(d, trace).contains_key(fs.root + p),
    decreases trace.len(),
{
    lemma_unrolled(step, trace);
    let dirs = fs.state.tagdirs[tags];
    if let StepView::Ask(_, _, task) = step {
        let first = first_path(dirs);
        lemma_first_path(dirs);
        lemma_full(fs, first);
        let reply = trace[0].1;
        let next = fs.resumed(task, reply);
        let rest = trace.drop_first();
        let d1 = trace[0].0;
        let less = fs.with(fs.state.without_first_dir(tags));
        assert(happens(d1, next, rest, new_contents));
        assert(disk_after(d, trace) == disk_after(d1, rest));
        lemma_unrolled(next, rest);
        if next == less.rmdir_next(tags) {
            assert(less.state.tagdirs[tags] =~= dirs.remove(first));
            lemma_dirs_gone(d1, less, tags, next, rest, new_contents, after, result);
            let now = disk_after(d1, rest);
            assert(!d1.contains_key(fs.root + first));
            assert(only_dirs_gone(d, now, fs.root, dirs)) by {
                assert forall|q: Path| #[trigger]
                    now.contains_key(q) implies d.contains_key(q) && now[q] == d[q] by {
                    assert(d1.contains_key(q));
                }
                assert forall|q: Path| #[trigger]
                    d.contains_key(q) && !now.contains_key(q) implies exists|p: Path|
                    dirs.contains(p) && q == fs.root + p by {
                    if d1.contains_key(q) {
                        let p = choose|p: Path| dirs.remove(first).contains(p) && q == fs.root + p;
                        assert(dirs.contains(p) && q == fs.root + p);
                    } else {
                        assert(dirs.contains(first) && q == fs.root + first);
                    }
                }
            }
            if result is Ok {
                assert forall|p: Path| #[trigger] dirs.contains(p) implies !now.contains_key(
                    fs.root + p,
                ) by {
                    if p != first {
                        assert(less.state.tagdirs[tags].contains(p));
                    } else if now.contains_key(fs.root + p) {
                        assert(d1.contains_key(fs.root + p));
                    }
                }
            }
        } else if next is Ask {
            lemma_dirs_gone(d1, fs, tags, next, rest, new_contents, after, result);
        } else {
            assert(rest.len() == 0);
        }
    } else {
        assert(trace.len() == 0);
        if dirs != Set::<Path>::empty() {
            assert(fs.state.knows_dir(tags));
        }
    }
}

/// When a tag was removed none of its directories is on the disk. Nothing else is
/// gone, also where that failed.
pub proof fn removed_tags_are_gone_from_disk(
    d: Map<Path, Item>,
    fs: TagView,
    parent: u64,
    tags: Set<Name>,
    name: Name,
    trace: Trace,
    new_contents: int,
    after: TagView,
    result: Result<OutcomeView, Errno>,
)
    requires
        filed(fs.state),
        fs.node(parent) == Some(NodeView::Dir(tags)),
        fs.state.tagdirs.contains_key(tags.insert(name)),
        happens(d, fs.rmdir_step(parent, name), trace, new_contents),
        run(fs.rmdir_step(parent, name), replies_of(trace)) == StepView::End(after, result),
    ensures
        ({
            let dirs = fs.state.tagdirs[tags.insert(name)];
            let now = disk_after(d, trace);
            &&& only_dirs_gone(d, now, fs.root, dirs)
            &&& result is Ok ==> forall|p: Path| #[trigger]
                dirs.contains(p) ==> !now.contains_key(fs.root + p)
        }),
{
    let both = tags.insert(name);
    let step = fs.rmdir_step(parent, name);
    lemma_dirs_finite(fs.state.tagdirs, both);
    lemma_unrolled(step, trace);
    if step == fs.rmdir_next(both) {
        lemma_dirs_gone(d, fs, both, step, trace, new_contents, after, result);
    } else {
        assert(step is End);
        assert(trace.len() == 0);
    }
}

/// A file that was renamed was moved on the disk, and nothing else was.
pub proof fn renamed_files_are_moved_on_disk(
    d: Map<Path, Item>,
    fs: TagView,
    old: Name,
    new: Name,
    trace: Trace,
    new_contents: int,
    after: TagView,
    outcome: OutcomeView,
)
    requires
        filed(fs.state),
        plain(new),
        happens(
            d,
            fs.rename_file_step(old, new, Set::empty(), Set::empty()),
            trace,
            new_contents,
        ),
        run(fs.rename_file_step(old, new, Set::empty(), Set::empty()), replies_of(trace))
            == StepView::End(after, Ok(outcome)),
    ensures
        ({
            let from = fs.root + fs.state.files[old].ffn;
            let to = fs.root + fs.state.files[old].ffn.drop_last().push(encode_utf8(new));
            &&& fs.state.files.contains_key(old)
            &&& after.state.files.contains_key(new)
            &&& fs.root + after.state.files[new].ffn == to
            &&& !d.contains_key(to)
            &&& disk_after(d, trace) == moved(d, from, to)
        }),
{
    reveal_with_fuel(happens, 4);
    let none = Set::<Name>::empty();
    let step = fs.rename_file_step(old, new, none, none);
    lemma_unrolled(step, trace);
    if fs.state.files.contains_key(old) && !fs.state.files.contains_key(new) {
        let ffn = fs.state.files[old].ffn;
        lemma_plain_dir(ffn);
        lemma_placed(ffn.drop_last(), new);
        lemma_full(fs, ffn);
        lemma_full(fs, ffn.drop_last().push(encode_utf8(new)));
        let look = TaskView::RenameLook { old_bn: old, new_bn: new, add: none, remove: none };
        let second = fs.resumed(look, trace[0].1);
        let rest = trace.drop_first();
        lemma_unrolled(second, rest);
        if second is Ask {
            let task = TaskView::RenameMove { old_bn: old, new_bn: new, add: none, remove: none };
            let third = fs.resumed(task, rest[0].1);
            lemma_unrolled(third, rest.drop_first());
            assert(third is End);
            assert(rest.drop_first().len() == 0);
            assert(trace.last() == rest[0]);
        }
    }
}

} // verus!
