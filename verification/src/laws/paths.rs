//! Paths of cgroups.

use vstd::prelude::*;

use crate::cgroup;
use crate::laws::texts;
use crate::text;

verus! {

/// A path that is put in the foreground loses white space at its ends and slashes at its end, and nothing else. The
/// root stays.
pub proof fn lemma_normalized(a: Seq<char>, path: Seq<char>, slashes: nat, b: Seq<char>)
    requires
        texts::blank(a),
        texts::blank(b),
        path.len() > 0,
        !text::is_white_space(path[0]),
        path.last() != '/',
        !text::is_white_space(path.last()),
    ensures
        cgroup::normalized(a + (path + Seq::new(slashes, |i: int| '/')) + b) == path,
        cgroup::normalized(a + "/"@ + b) == "/"@,
        cgroup::normalized(a).len() == 0,
{
    reveal_strlit("/");
    let tail = Seq::new(slashes, |i: int| '/');
    let all = path + tail;
    assert(all[0] == path[0]);
    assert(!text::is_white_space(all.last())) by {
        if slashes > 0 {
            assert(all.last() == '/');
        } else {
            assert(all =~= path);
        }
    }
    texts::lemma_trimmed(a, all, b);
    texts::lemma_without_trailing(path, '/', slashes);
    assert(all != "/"@) by {
        assert(path[0] != '/' || path.len() > 1);
        if all == "/"@ {
            assert(all[0] == '/');
            assert(path.len() == 1);
        }
    }
    texts::lemma_trimmed(a, "/"@, b);
    texts::lemma_trimmed_blank(a);
    assert(text::trimmed(a) =~= Seq::empty());
}

/// A cgroup is in the foreground when it is the one in the foreground or stands below it. Every absolute path stands
/// below the root. Nothing is in an empty path, and an empty path is in nothing.
pub proof fn lemma_within(process: Seq<char>, foreground: Seq<char>)
    ensures
        process.len() == 0 || foreground.len() == 0 ==> !cgroup::within(process, foreground),
        process.len() > 0 ==> (cgroup::within(process, "/"@) <==> process[0] == '/'),
        process.len() > 0 && process == foreground ==> cgroup::within(process, foreground),
        foreground.len() > 0 && foreground != "/"@ && cgroup::within(process, foreground) ==> process == foreground || (
        process.len() > foreground.len() && process.take(foreground.len() as int) == foreground
            && process[foreground.len() as int] == '/'),
        foreground.len() > 0 && foreground != "/"@ && process.len() > foreground.len() && process.take(
            foreground.len() as int,
        ) == foreground && process[foreground.len() as int] == '/' ==> cgroup::within(process, foreground),
{
    reveal_strlit("/");
    if foreground.is_prefix_of(process) {
        assert(process.take(foreground.len() as int) =~= foreground);
    }
    if process.len() > foreground.len() && process.take(foreground.len() as int) == foreground {
        assert(process.subrange(0, foreground.len() as int) =~= foreground);
        assert(foreground.is_prefix_of(process));
    }
}

/// The application scope of a cgroup is the path up to the first step below the first `app.slice`, whatever stands
/// below that. Where there is no such step, it is the cgroup itself.
pub proof fn lemma_app_scope(before: Seq<char>, scope: Seq<char>, below: Seq<char>, cgroup: Seq<char>)
    requires
        cgroup == before + "/app.slice/"@ + scope + below,
        forall|i: int| 0 <= i < before.len() ==> !text::occurs_at(cgroup, "/app.slice/"@, i),
        !scope.contains('/'),
        below.len() == 0 || below[0] == '/',
    ensures
        scope.len() > 0 ==> cgroup::app_scope(cgroup) == before + "/app.slice/"@ + scope,
        scope.len() == 0 ==> cgroup::app_scope(cgroup) == cgroup,
{
    let slice = "/app.slice/"@;
    let at = before.len() as int;
    let start = at + slice.len();
    let rest = cgroup.skip(start);
    assert(cgroup.subrange(at, at + slice.len()) =~= slice);
    assert(text::first_occurs_at(cgroup, slice, at));
    assert(text::occurs(cgroup, slice));
    text::lemma_first_occurrence(cgroup, slice, at);
    assert(rest =~= scope + below);
    if below.len() == 0 {
        assert(rest =~= scope);
        text::lemma_one_piece(scope, '/');
    } else {
        let more = below.skip(1);
        assert(rest =~= scope + seq!['/'] + more);
        text::lemma_pieces_joined(scope, '/', more);
        text::lemma_one_piece(scope, '/');
    }
    assert(text::pieces(rest, '/')[0] == scope);
    assert(cgroup.take(start) =~= before + slice);
}

/// A cgroup that is in no `app.slice` is its own scope.
pub proof fn lemma_no_app_scope(cgroup: Seq<char>)
    requires
        forall|i: int| !text::occurs_at(cgroup, "/app.slice/"@, i),
    ensures
        cgroup::app_scope(cgroup) == cgroup,
{
}

/// A path of the given steps.
pub open spec fn path_of(steps: Seq<Seq<char>>) -> Seq<char>
    decreases steps.len(),
{
    if steps.len() == 0 {
        Seq::empty()
    } else {
        path_of(steps.drop_last()) + seq!['/'] + steps.last()
    }
}

proof fn lemma_path_pieces(steps: Seq<Seq<char>>)
    requires
        forall|i: int| 0 <= i < steps.len() ==> !(#[trigger] steps[i]).contains('/'),
    ensures
        text::pieces(path_of(steps), '/') == seq![Seq::<char>::empty()] + steps,
    decreases steps.len(),
{
    if steps.len() == 0 {
        text::lemma_one_piece(Seq::empty(), '/');
        assert(text::pieces(path_of(steps), '/') =~= seq![Seq::<char>::empty()] + steps);
    } else {
        let head = steps.drop_last();
        assert forall|i: int| 0 <= i < head.len() implies !(#[trigger] head[i]).contains('/') by {
            assert(head[i] == steps[i]);
        }
        lemma_path_pieces(head);
        assert(!steps[steps.len() - 1].contains('/'));
        text::lemma_one_piece(steps.last(), '/');
        text::lemma_pieces_joined(path_of(head), '/', steps.last());
        assert(text::pieces(path_of(steps), '/') =~= seq![Seq::<char>::empty()] + steps);
    }
}

proof fn lemma_path_below(base: Seq<char>, steps: Seq<Seq<char>>)
    ensures
        cgroup::descended(base, steps) == base + path_of(steps),
    decreases steps.len(),
{
    reveal_strlit("/");
    assert("/"@ =~= seq!['/']);
    if steps.len() > 0 {
        lemma_path_below(base, steps.drop_last());
        assert(cgroup::descended(base, steps) =~= base + path_of(steps));
    } else {
        assert(base + path_of(steps) =~= base);
    }
}

proof fn lemma_path_start(steps: Seq<Seq<char>>)
    requires
        steps.len() > 0,
    ensures
        path_of(steps).len() > 0,
        path_of(steps)[0] == '/',
    decreases steps.len(),
{
    if steps.len() > 1 {
        lemma_path_start(steps.drop_last());
    } else {
        assert(path_of(steps.drop_last()) =~= Seq::empty());
        assert(path_of(steps) =~= seq!['/'] + steps.last());
    }
}

/// The file of a cgroup stands below where cgroups are, under the path of the cgroup.
pub proof fn lemma_file(steps: Seq<Seq<char>>, file: Seq<char>)
    requires
        steps.len() > 0,
        forall|i: int|
            0 <= i < steps.len() ==> (#[trigger] steps[i]).len() > 0 && !steps[i].contains('/') && steps[i] != "."@
                && steps[i] != ".."@,
        !path_of(steps).contains('\0'),
        file.len() == 0 || file[0] != '/',
    ensures
        cgroup::file_path(path_of(steps), file) == Some("/sys/fs/cgroup"@ + path_of(steps) + "/"@ + file),
{
    let path = path_of(steps);
    let all = text::pieces(path, '/');
    let kind = |piece: Seq<char>| cgroup::is_step(piece);
    reveal_strlit("..");
    lemma_path_pieces(steps);
    lemma_path_start(steps);
    assert(!all.contains(".."@)) by {
        if all.contains(".."@) {
            let i = choose|i: int| 0 <= i < all.len() && all[i] == ".."@;
            if i > 0 {
                assert(all[i] == steps[i - 1]);
            }
        }
    }
    assert(all.filter(kind) =~= steps) by {
        lemma_all_kept(steps, kind);
        let none = seq![Seq::<char>::empty()];
        assert(all =~= none + steps);
        reveal(Seq::filter);
        assert(none.drop_last() =~= Seq::empty());
        assert(none.drop_last().filter(kind) =~= Seq::empty());
        assert(!kind(none.last()));
        assert(none.filter(kind) =~= Seq::empty());
        Seq::filter_distributes_over_add(none, steps, kind);
        assert(none.filter(kind) + steps.filter(kind) =~= steps);
    }
    lemma_path_below("/sys/fs/cgroup"@, steps);
}

proof fn lemma_all_kept(steps: Seq<Seq<char>>, kind: spec_fn(Seq<char>) -> bool)
    requires
        forall|i: int| 0 <= i < steps.len() ==> kind(#[trigger] steps[i]),
    ensures
        steps.filter(kind) == steps,
    decreases steps.len(),
{
    reveal(Seq::filter);
    if steps.len() > 0 {
        let head = steps.drop_last();
        assert forall|i: int| 0 <= i < head.len() implies kind(#[trigger] head[i]) by {
            assert(head[i] == steps[i]);
        }
        lemma_all_kept(head, kind);
        assert(kind(steps[steps.len() - 1]));
        assert(steps.filter(kind) =~= steps);
    } else {
        assert(steps.filter(kind) =~= steps);
    }
}

/// Steps that are empty or stay where they are do not count: leaving one out does not change the file.
pub proof fn lemma_idle_step(before: Seq<char>, idle: Seq<char>, after: Seq<char>, file: Seq<char>)
    requires
        before.len() > 0,
        idle.len() == 0 || idle == "."@,
    ensures
        cgroup::file_path(before + seq!['/'] + (idle + seq!['/'] + after), file) == cgroup::file_path(
            before + seq!['/'] + after,
            file,
        ),
{
    let kind = |piece: Seq<char>| cgroup::is_step(piece);
    let long = before + seq!['/'] + (idle + seq!['/'] + after);
    let short = before + seq!['/'] + after;
    let first = text::pieces(before, '/');
    let rest = text::pieces(after, '/');
    reveal_strlit(".");
    reveal_strlit("..");
    text::lemma_pieces_joined(before, '/', idle + seq!['/'] + after);
    text::lemma_pieces_joined(idle, '/', after);
    text::lemma_pieces_joined(before, '/', after);
    text::lemma_one_piece(idle, '/');
    let one = seq![idle];
    assert(text::pieces(long, '/') == first + (one + rest));
    assert(text::pieces(short, '/') == first + rest);
    Seq::filter_distributes_over_add(first, one + rest, kind);
    Seq::filter_distributes_over_add(one, rest, kind);
    Seq::filter_distributes_over_add(first, rest, kind);
    assert(one.filter(kind) =~= Seq::empty()) by {
        reveal(Seq::filter);
        assert(!kind(one.last()));
        one.drop_last().lemma_filter_len(kind);
    }
    assert(Seq::<Seq<char>>::empty() + rest.filter(kind) =~= rest.filter(kind));
    assert((first + (one + rest)).contains(".."@) == (first + rest).contains(".."@)) by {
        if (first + rest).contains(".."@) {
            let i = choose|i: int| 0 <= i < (first + rest).len() && (first + rest)[i] == ".."@;
            if i < first.len() {
                assert((first + (one + rest))[i] == ".."@);
            } else {
                assert((first + (one + rest))[i + 1] == ".."@);
            }
        }
        if (first + (one + rest)).contains(".."@) {
            let i = choose|i: int| 0 <= i < (first + (one + rest)).len() && (first + (one + rest))[i] == ".."@;
            if i < first.len() {
                assert((first + rest)[i] == ".."@);
            } else {
                assert(i > first.len());
                assert((first + rest)[i - 1] == ".."@);
            }
        }
    }
    assert(long[0] == before[0] && short[0] == before[0]);
    assert(long.contains('\0') == short.contains('\0')) by {
        if long.contains('\0') {
            let i = choose|i: int| 0 <= i < long.len() && long[i] == '\0';
            if i <= before.len() {
                assert(short[i] == '\0');
            } else {
                assert(short[i - idle.len() - 1] == '\0');
            }
        }
        if short.contains('\0') {
            let i = choose|i: int| 0 <= i < short.len() && short[i] == '\0';
            if i <= before.len() {
                assert(long[i] == '\0');
            } else {
                assert(long[i + idle.len() + 1] == '\0');
            }
        }
    }
}

/// There is no file for a path that is not absolute, that holds a NUL or that leads upwards.
pub proof fn lemma_no_file(cgroup: Seq<char>, file: Seq<char>)
    ensures
        cgroup.len() == 0 ==> cgroup::file_path(cgroup, file) is None,
        cgroup.len() > 0 && cgroup[0] != '/' ==> cgroup::file_path(cgroup, file) is None,
        cgroup.contains('\0') ==> cgroup::file_path(cgroup, file) is None,
        text::pieces(cgroup, '/').contains(".."@) ==> cgroup::file_path(cgroup, file) is None,
        cgroup.len() > 0 && cgroup[0] == '/' && !cgroup.contains('\0') && !text::pieces(cgroup, '/').contains(".."@)
            ==> cgroup::file_path(cgroup, file) is Some,
{
}

/// A file that is named by an absolute path stands there, whichever cgroup it is asked for.
pub proof fn lemma_absolute_file(steps: Seq<Seq<char>>, file: Seq<char>)
    requires
        steps.len() > 0,
        forall|i: int|
            0 <= i < steps.len() ==> (#[trigger] steps[i]).len() > 0 && !steps[i].contains('/') && steps[i] != ".."@,
        !path_of(steps).contains('\0'),
        file.len() > 0,
        file[0] == '/',
    ensures
        cgroup::file_path(path_of(steps), file) == Some(file),
{
    let all = text::pieces(path_of(steps), '/');
    reveal_strlit("..");
    lemma_path_pieces(steps);
    lemma_path_start(steps);
    assert(!all.contains(".."@)) by {
        if all.contains(".."@) {
            let i = choose|i: int| 0 <= i < all.len() && all[i] == ".."@;
            if i > 0 {
                assert(all[i] == steps[i - 1]);
            }
        }
    }
}

} // verus!
